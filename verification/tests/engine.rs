use treedesk::tree::Tree;

#[test]
fn single_root_starts_not_done() {
    let mut t = Tree::new();
    let id = t.add_root(String::from("Inbox"));
    assert_eq!(id, 1);
    let n = t.get(1).expect("root must be found");
    assert_eq!(n.id, 1);
    assert_eq!(n.title, "Inbox");
    assert!(!n.done);
    assert_eq!(n.children.len(), 0);
}

#[test]
fn toggle_single_child_completes_parent() {
    // root("Inbox") -> 1; child(1, "Buy milk") -> 2; toggle(2) marks 2
    // done and propagation re-derives 1 as done.
    let mut t = Tree::new();
    assert_eq!(t.add_root(String::from("Inbox")), 1);
    assert_eq!(t.add_child(1, String::from("Buy milk")), Some(2));
    assert!(t.toggle(2));
    assert!(t.get(2).unwrap().done);
    assert!(t.get(1).unwrap().done);
}

#[test]
fn new_child_uncompletes_parent() {
    // From the completed pair, a fresh (not done) child flips the
    // parent back to not done.
    let mut t = Tree::new();
    t.add_root(String::from("Inbox"));
    t.add_child(1, String::from("Buy milk"));
    t.toggle(2);
    assert_eq!(t.add_child(1, String::from("Finish book")), Some(3));
    assert!(!t.get(3).unwrap().done);
    assert!(!t.get(1).unwrap().done);
    assert!(t.get(2).unwrap().done);
}

#[test]
fn move_rejects_self_and_cycles() {
    let mut t = Tree::new();
    t.add_root(String::from("Inbox"));
    t.add_child(1, String::from("Buy milk"));
    t.add_child(1, String::from("Finish book"));
    let before = t.fmt_pretty();
    assert!(!t.move_node(3, 3));
    assert_eq!(t.fmt_pretty(), before);
    assert!(!t.move_node(1, 3));
    assert_eq!(t.fmt_pretty(), before);
}

#[test]
fn move_rejects_unknown_ids() {
    let mut t = Tree::new();
    t.add_root(String::from("Inbox"));
    let before = t.fmt_pretty();
    assert!(!t.move_node(1, 99));
    assert!(!t.move_node(99, 1));
    assert_eq!(t.fmt_pretty(), before);
}

#[test]
fn delete_removes_whole_subtree() {
    // Deleting node 1 with descendants 2 and 3 retires all three ids.
    let mut t = Tree::new();
    t.add_root(String::from("Inbox"));
    t.add_child(1, String::from("Buy milk"));
    t.add_child(1, String::from("Finish book"));
    assert!(t.delete(1));
    assert!(t.get(1).is_none());
    assert!(t.get(2).is_none());
    assert!(t.get(3).is_none());
    assert_eq!(t.fmt_pretty(), "");
}

#[test]
fn delete_unknown_reports_not_found() {
    let mut t = Tree::new();
    t.add_root(String::from("Inbox"));
    let before = t.fmt_pretty();
    assert!(!t.delete(7));
    assert_eq!(t.fmt_pretty(), before);
}

#[test]
fn childless_parent_keeps_done_after_deletions() {
    // A parent whose children were all done (so it was done) keeps its
    // flag when the deletions leave it childless.
    let mut t = Tree::new();
    t.add_root(String::from("Chores"));
    t.add_child(1, String::from("Dishes"));
    t.add_child(1, String::from("Laundry"));
    t.toggle(2);
    t.toggle(3);
    assert!(t.get(1).unwrap().done);
    assert!(t.delete(2));
    assert!(t.delete(3));
    let parent = t.get(1).unwrap();
    assert_eq!(parent.children.len(), 0);
    assert!(parent.done);
}

#[test]
fn toggle_leaf_twice_restores_everything() {
    let mut t = Tree::new();
    t.add_root(String::from("Inbox"));
    t.add_child(1, String::from("Buy milk"));
    t.add_child(1, String::from("Finish book"));
    t.toggle(2);
    let before = t.fmt_pretty();
    assert!(t.toggle(3));
    assert!(t.toggle(3));
    assert_eq!(t.fmt_pretty(), before);
}

#[test]
fn toggle_unknown_reports_not_found() {
    let mut t = Tree::new();
    t.add_root(String::from("Inbox"));
    let before = t.fmt_pretty();
    assert!(!t.toggle(42));
    assert_eq!(t.fmt_pretty(), before);
}

#[test]
fn toggle_on_inner_node_is_overridden_by_children() {
    // Completion of a node with children is derived, not set: the flip
    // is immediately re-derived from the children.
    let mut t = Tree::new();
    t.add_root(String::from("Inbox"));
    t.add_child(1, String::from("Buy milk"));
    assert!(t.toggle(1));
    assert!(!t.get(1).unwrap().done);
    t.toggle(2);
    assert!(t.get(1).unwrap().done);
    assert!(t.toggle(1));
    assert!(t.get(1).unwrap().done);
}

#[test]
fn ids_are_never_reused() {
    let mut t = Tree::new();
    t.add_root(String::from("Inbox"));
    t.add_child(1, String::from("Buy milk"));
    assert!(t.delete(2));
    assert_eq!(t.add_child(1, String::from("Call mom")), Some(3));
    assert!(t.delete(1));
    assert_eq!(t.add_root(String::from("Later")), 4);
    assert_eq!(t.next_id(), 5);
}

#[test]
fn add_child_unknown_parent_fails() {
    let mut t = Tree::new();
    t.add_root(String::from("Inbox"));
    assert_eq!(t.add_child(9, String::from("Lost")), None);
    assert_eq!(t.next_id(), 2);
}

#[test]
fn move_reparents_and_propagates_both_sides() {
    // Moving the only not-done child away completes the old parent and
    // un-completes the new one.
    let mut t = Tree::new();
    t.add_root(String::from("A"));
    t.add_root(String::from("B"));
    t.add_child(1, String::from("a1"));
    t.add_child(1, String::from("a2"));
    t.add_child(2, String::from("b1"));
    t.toggle(3);
    t.toggle(5);
    assert!(t.get(2).unwrap().done);
    assert!(!t.get(1).unwrap().done);
    assert!(t.move_node(4, 2));
    assert!(t.get(1).unwrap().done);
    assert!(!t.get(2).unwrap().done);
    let b = t.get(2).unwrap();
    assert_eq!(b.children.len(), 2);
    assert_eq!(b.children[1].id, 4);
    assert!(t.get(4).is_some());
}

#[test]
fn move_root_under_other_root() {
    let mut t = Tree::new();
    t.add_root(String::from("A"));
    t.add_root(String::from("B"));
    assert!(t.move_node(2, 1));
    let a = t.get(1).unwrap();
    assert_eq!(a.children.len(), 1);
    assert_eq!(a.children[0].id, 2);
    assert_eq!(
        t.fmt_pretty(),
        "[ ] A (id: 1)\n  [ ] B (id: 2)\n"
    );
}

#[test]
fn rendering_matches_format_exactly() {
    let mut t = Tree::new();
    t.add_root(String::from("Inbox"));
    t.add_child(1, String::from("Buy milk"));
    t.add_child(1, String::from("Finish book"));
    t.add_child(2, String::from("Oat"));
    t.toggle(4);
    assert_eq!(
        t.fmt_pretty(),
        "[ ] Inbox (id: 1)\n  [x] Buy milk (id: 2)\n    [x] Oat (id: 4)\n  [ ] Finish book (id: 3)\n"
    );
}

#[test]
fn rendering_multi_digit_ids() {
    let mut t = Tree::new();
    for _ in 0..12 {
        t.add_root(String::from("n"));
    }
    let text = t.fmt_pretty();
    assert!(text.contains("[ ] n (id: 10)\n"));
    assert!(text.contains("[ ] n (id: 12)\n"));
}

#[test]
fn empty_tree_renders_empty() {
    let t = Tree::new();
    assert_eq!(t.fmt_pretty(), "");
    assert!(t.get(1).is_none());
    assert_eq!(t.next_id(), 1);
}

#[test]
fn rendering_unicode_title() {
    let mut t = Tree::new();
    t.add_root(String::from("Grüße 日本"));
    assert_eq!(t.fmt_pretty(), "[ ] Grüße 日本 (id: 1)\n");
}

#[test]
fn move_carries_subtree() {
    let mut t = Tree::new();
    t.add_root(String::from("A"));
    t.add_root(String::from("B"));
    t.add_child(1, String::from("a1"));
    t.add_child(3, String::from("a1a"));
    assert!(t.move_node(3, 2));
    assert!(t.get(4).is_some());
    let b = t.get(2).unwrap();
    assert_eq!(b.children.len(), 1);
    assert_eq!(b.children[0].id, 3);
    assert_eq!(b.children[0].children[0].id, 4);
    let a = t.get(1).unwrap();
    assert_eq!(a.children.len(), 0);
}
