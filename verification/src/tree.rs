//! The tree/node engine: a forest of task nodes with creation,
//! completion tracking with upward propagation, subtree deletion, and
//! cycle-safe reparenting.
//!
//! Ownership is strictly downward: the [`Tree`] owns its roots and every
//! node owns its children, so each node sits in exactly one place. The
//! id index and the parent back-references of the interface are derived
//! from that structure rather than stored, which makes three of the
//! engine's safety properties structural: the reachable nodes are
//! exactly the indexed ones, every child's parent link is the node that
//! holds it, and no node is its own ancestor. The remaining properties
//! are carried by [`Tree::wf`] through every operation's contract:
//! completion consistency ([`done_ok_f`]), uniqueness of ids, and the
//! monotonic id counter ([`below`]).

use vstd::prelude::*;
use vstd::string::StrSliceExecFns;

verus! {

/// One task entry: a title, a completion flag, and an ordered list of
/// owned children. The parent relation is implicit in the ownership
/// structure, so the forest is acyclic by construction.
pub struct Node {
    pub id: u32,
    pub title: String,
    pub done: bool,
    pub children: Vec<Node>,
}

/// The mathematical model of a node: the same shape over `Seq`.
#[verifier::ext_equal]
pub ghost struct NodeView {
    pub id: u32,
    pub title: Seq<char>,
    pub done: bool,
    pub children: Seq<NodeView>,
}

pub open spec fn view_node(n: Node) -> NodeView
    decreases n, 1int,
{
    NodeView {
        id: n.id,
        title: n.title@,
        done: n.done,
        children: view_nodes(n.children@),
    }
}

pub open spec fn view_nodes(s: Seq<Node>) -> Seq<NodeView>
    decreases s, 0int,
{
    if s.len() == 0 {
        Seq::empty()
    } else {
        seq![view_node(s[0])] + view_nodes(s.subrange(1, s.len() as int))
    }
}

// ---------------------------------------------------------------------------
// Membership and identity
// ---------------------------------------------------------------------------

/// Does the subtree rooted at `n` contain a node with this id?
pub open spec fn has_n(n: NodeView, id: u32) -> bool
    decreases n, 1int,
{
    n.id == id || has_f(n.children, id)
}

/// Does any tree of the forest `s` contain a node with this id?
pub open spec fn has_f(s: Seq<NodeView>, id: u32) -> bool
    decreases s, 0int,
{
    exists|i: int| 0 <= i < s.len() && has_n(s[i], id)
}

/// All ids of the subtree rooted at `n`, in preorder.
pub open spec fn ids_n(n: NodeView) -> Seq<u32>
    decreases n, 1int,
{
    seq![n.id] + ids_f(n.children)
}

/// All ids of the forest `s`, in preorder.
pub open spec fn ids_f(s: Seq<NodeView>) -> Seq<u32>
    decreases s, 0int,
{
    if s.len() == 0 {
        Seq::empty()
    } else {
        ids_n(s[0]) + ids_f(s.subrange(1, s.len() as int))
    }
}

// ---------------------------------------------------------------------------
// Completion propagation
// ---------------------------------------------------------------------------

/// Every id of `s` lies strictly below `lim`.
pub open spec fn below(s: Seq<u32>, lim: u32) -> bool {
    forall|k: int| 0 <= k < s.len() ==> s[k] < lim
}

pub open spec fn all_done(s: Seq<NodeView>) -> bool {
    forall|i: int| 0 <= i < s.len() ==> s[i].done
}

/// One step of upward propagation: a node with children derives `done`
/// from them; a childless node keeps whatever was last set directly.
pub open spec fn refresh(n: NodeView) -> NodeView {
    if n.children.len() > 0 {
        NodeView { done: all_done(n.children), ..n }
    } else {
        n
    }
}

/// Completion consistency: on every node with at least one child,
/// `done` equals the conjunction of the children's `done` flags.
pub open spec fn done_ok_n(n: NodeView) -> bool
    decreases n, 1int,
{
    (n.children.len() > 0 ==> n.done == all_done(n.children)) && done_ok_f(n.children)
}

pub open spec fn done_ok_f(s: Seq<NodeView>) -> bool
    decreases s, 0int,
{
    forall|i: int| 0 <= i < s.len() ==> done_ok_n(s[i])
}

// ---------------------------------------------------------------------------
// The operations, as functions on the model
// ---------------------------------------------------------------------------

/// Toggling inside the subtree rooted at `n`: flip the target's flag,
/// then re-derive `done` on the target and on each ancestor on the way
/// back up. A subtree without the target is left unchanged.
pub open spec fn toggle_n(n: NodeView, id: u32) -> NodeView
    decreases n, 1int,
{
    if n.id == id {
        refresh(NodeView { done: !n.done, ..n })
    } else if has_f(n.children, id) {
        refresh(NodeView { children: toggle_f(n.children, id), ..n })
    } else {
        n
    }
}

pub open spec fn toggle_f(s: Seq<NodeView>, id: u32) -> Seq<NodeView>
    decreases s, 0int,
{
    if s.len() == 0 {
        s
    } else {
        seq![toggle_n(s[0], id)] + toggle_f(s.subrange(1, s.len() as int), id)
    }
}

/// Detaching the subtree rooted at `id` from the forest: the first tree
/// whose root carries `id` is dropped whole; otherwise the ancestors of
/// the detached node re-derive `done` on the way back up.
pub open spec fn remove_n(n: NodeView, id: u32) -> NodeView
    decreases n, 1int,
{
    if has_f(n.children, id) {
        refresh(NodeView { children: remove_f(n.children, id), ..n })
    } else {
        n
    }
}

pub open spec fn remove_f(s: Seq<NodeView>, id: u32) -> Seq<NodeView>
    decreases s, 0int,
{
    if s.len() == 0 {
        s
    } else if s[0].id == id {
        s.subrange(1, s.len() as int)
    } else if has_n(s[0], id) {
        seq![remove_n(s[0], id)] + s.subrange(1, s.len() as int)
    } else {
        seq![s[0]] + remove_f(s.subrange(1, s.len() as int), id)
    }
}

/// The subtree rooted at the first node carrying `id`, if any.
pub open spec fn get_n(n: NodeView, id: u32) -> Option<NodeView>
    decreases n, 1int,
{
    if n.id == id {
        Some(n)
    } else {
        get_f(n.children, id)
    }
}

pub open spec fn get_f(s: Seq<NodeView>, id: u32) -> Option<NodeView>
    decreases s, 0int,
{
    if s.len() == 0 {
        None
    } else if has_n(s[0], id) {
        get_n(s[0], id)
    } else {
        get_f(s.subrange(1, s.len() as int), id)
    }
}

/// Attaching `sub` as the last child of the node carrying `pid`; the new
/// parent and each of its ancestors re-derive `done` on the way back up.
pub open spec fn attach_n(n: NodeView, pid: u32, sub: NodeView) -> NodeView
    decreases n, 1int,
{
    if n.id == pid {
        refresh(NodeView { children: n.children.push(sub), ..n })
    } else if has_f(n.children, pid) {
        refresh(NodeView { children: attach_f(n.children, pid, sub), ..n })
    } else {
        n
    }
}

pub open spec fn attach_f(s: Seq<NodeView>, pid: u32, sub: NodeView) -> Seq<NodeView>
    decreases s, 0int,
{
    if s.len() == 0 {
        s
    } else if has_n(s[0], pid) {
        seq![attach_n(s[0], pid, sub)] + s.subrange(1, s.len() as int)
    } else {
        seq![s[0]] + attach_f(s.subrange(1, s.len() as int), pid, sub)
    }
}

// ---------------------------------------------------------------------------
// The forest container
// ---------------------------------------------------------------------------

/// The forest: ordered roots and a monotonic id counter. Every node is
/// owned by exactly one place (the root list or a parent's child list),
/// so the structure is acyclic and free of dangling references by
/// construction.
pub struct Tree {
    roots: Vec<Node>,
    next_id: u32,
}

impl Tree {
    /// The model of the forest.
    pub closed spec fn forest(self) -> Seq<NodeView> {
        view_nodes(self.roots@)
    }

    /// The id that the next created node will receive.
    pub closed spec fn next(self) -> u32 {
        self.next_id
    }

    /// The invariant every operation preserves: completion consistency,
    /// no id used twice, and every id strictly below the counter.
    pub open spec fn wf(self) -> bool {
        &&& done_ok_f(self.forest())
        &&& ids_f(self.forest()).no_duplicates()
        &&& below(ids_f(self.forest()), self.next())
        &&& self.next() >= 1
    }
}

// ---------------------------------------------------------------------------
// Basic lemmas about the model
// ---------------------------------------------------------------------------

/// The model of a list of nodes is the list of the models, pointwise.
pub proof fn lemma_view_nodes(s: Seq<Node>)
    ensures
        view_nodes(s).len() == s.len(),
        forall|i: int| 0 <= i < s.len() ==> view_nodes(s)[i] == view_node(s[i]),
    decreases s,
{
    if s.len() > 0 {
        let rest = s.subrange(1, s.len() as int);
        lemma_view_nodes(rest);
        assert forall|i: int| 0 <= i < s.len() implies view_nodes(s)[i] == view_node(s[i]) by {
            if i > 0 {
                assert(rest[i - 1] == s[i]);
                assert(view_nodes(s)[i] == view_nodes(rest)[i - 1]);
            }
        }
    }
}

/// Membership in a non-empty forest splits into the first tree and the rest.
pub proof fn lemma_has_f_cons(s: Seq<NodeView>, id: u32)
    requires
        s.len() > 0,
    ensures
        has_f(s, id) == (has_n(s[0], id) || has_f(s.subrange(1, s.len() as int), id)),
{
    let rest = s.subrange(1, s.len() as int);
    if has_f(s, id) {
        let i = choose|i: int| 0 <= i < s.len() && has_n(s[i], id);
        if i > 0 {
            assert(rest[i - 1] == s[i]);
            assert(has_n(rest[i - 1], id));
        }
    }
    if has_f(rest, id) {
        let i = choose|i: int| 0 <= i < rest.len() && has_n(rest[i], id);
        assert(s[i + 1] == rest[i]);
        assert(has_n(s[i + 1], id));
    }
}

/// Appending a tree to a forest appends its ids.
pub proof fn lemma_ids_f_push(s: Seq<NodeView>, x: NodeView)
    ensures
        ids_f(s.push(x)) == ids_f(s) + ids_n(x),
    decreases s,
{
    if s.len() == 0 {
        assert(s.push(x)[0] == x);
        assert(s.push(x).subrange(1, 1) =~= s);
        assert(ids_f(s.push(x)) == ids_n(x) + ids_f(s));
        assert(ids_f(s) =~= Seq::<u32>::empty());
        assert(ids_f(s.push(x)) =~= ids_f(s) + ids_n(x));
    } else {
        let rest = s.subrange(1, s.len() as int);
        lemma_ids_f_push(rest, x);
        assert(s.push(x).subrange(1, s.len() as int + 1) =~= rest.push(x));
        assert(ids_f(s.push(x)) =~= ids_f(s) + ids_n(x));
    }
}

/// A concatenation is duplicate-free exactly when both halves are and
/// they share no element.
pub proof fn lemma_nodup_split(a: Seq<u32>, b: Seq<u32>)
    ensures
        (a + b).no_duplicates() == (a.no_duplicates() && b.no_duplicates() && a.disjoint(b)),
{
    if (a + b).no_duplicates() {
        assert forall|i: int, j: int|
            0 <= i < a.len() && 0 <= j < a.len() && i != j implies a[i] != a[j] by {
            assert((a + b)[i] == a[i]);
            assert((a + b)[j] == a[j]);
        }
        assert forall|i: int, j: int|
            0 <= i < b.len() && 0 <= j < b.len() && i != j implies b[i] != b[j] by {
            assert((a + b)[a.len() + i] == b[i]);
            assert((a + b)[a.len() + j] == b[j]);
        }
        assert forall|i: int, j: int|
            0 <= i < a.len() && 0 <= j < b.len() implies a[i] != b[j] by {
            assert((a + b)[i] == a[i]);
            assert((a + b)[a.len() + j] == b[j]);
        }
    }
    if a.no_duplicates() && b.no_duplicates() && a.disjoint(b) {
        assert forall|i: int, j: int|
            0 <= i < (a + b).len() && 0 <= j < (a + b).len() && i != j
            implies (a + b)[i] != (a + b)[j] by {}
    }
}

// ---------------------------------------------------------------------------
// Construction
// ---------------------------------------------------------------------------

impl Node {
    /// A fresh node: not done, childless.
    pub fn new(id: u32, title: String) -> (n: Node)
        ensures
            view_node(n) == (NodeView {
                id,
                title: title@,
                done: false,
                children: Seq::<NodeView>::empty(),
            }),
    {
        Node { id, title, done: false, children: Vec::new() }
    }
}

impl Tree {
    /// An empty forest; ids start at 1.
    pub fn new() -> (t: Tree)
        ensures
            t.wf(),
            t.forest() == Seq::<NodeView>::empty(),
            t.next() == 1,
    {
        Tree { roots: Vec::new(), next_id: 1 }
    }

    /// Hand out the next id and advance the counter.
    fn alloc_id(&mut self) -> (id: u32)
        requires
            old(self).next_id < u32::MAX,
        ensures
            id == old(self).next_id,
            final(self).next_id == old(self).next_id + 1,
            final(self).roots == old(self).roots,
    {
        let id = self.next_id;
        self.next_id = self.next_id + 1;
        id
    }

    /// Add a new root node; always succeeds and returns the fresh id.
    pub fn add_root(&mut self, title: String) -> (id: u32)
        requires
            old(self).wf(),
            old(self).next() < u32::MAX,
        ensures
            final(self).wf(),
            id == old(self).next(),
            final(self).next() == old(self).next() + 1,
            !has_f(old(self).forest(), id),
            final(self).forest() == old(self).forest().push(
                NodeView { id, title: title@, done: false, children: Seq::<NodeView>::empty() },
            ),
    {
        let ghost old_forest = self.forest();
        let id = self.alloc_id();
        let node = Node::new(id, title);
        let ghost nv = view_node(node);
        self.roots.push(node);
        proof {
            lemma_view_nodes(old(self).roots@);
            lemma_view_nodes(self.roots@);
            assert(self.forest() =~= old_forest.push(nv));
            lemma_ids_f_push(old_forest, nv);
            assert(ids_n(nv) =~= seq![id]);
            let a = ids_f(old_forest);
            assert(!a.contains(id)) by {
                if a.contains(id) {
                    let k = choose|k: int| 0 <= k < a.len() && a[k] == id;
                    assert(a[k] < id);
                }
            }
            lemma_has_ids_f(old_forest, id);
            assert(a.disjoint(seq![id])) by {
                assert forall|i: int, j: int|
                    0 <= i < a.len() && 0 <= j < seq![id].len() implies a[i] != seq![id][j] by {
                    assert(seq![id][j] == id);
                    assert(a[i] < id);
                }
            }
            lemma_nodup_split(a, seq![id]);
            assert(ids_f(self.forest()) == a + seq![id]);
            lemma_below_concat(a, seq![id], self.next_id);
            assert(done_ok_n(nv)) by {
                assert(nv.children.len() == 0);
                assert(done_ok_f(nv.children));
            }
            assert forall|i: int|
                0 <= i < self.forest().len() implies done_ok_n(self.forest()[i]) by {
                if i < old_forest.len() {
                    assert(self.forest()[i] == old_forest[i]);
                } else {
                    assert(self.forest()[i] == nv);
                }
            }
        }
        id
    }
}

/// An id is contained in a subtree exactly when it stands among its ids.
pub proof fn lemma_has_ids_n(n: NodeView, id: u32)
    ensures
        has_n(n, id) == ids_n(n).contains(id),
    decreases n, 1int,
{
    lemma_has_ids_f(n.children, id);
    if has_n(n, id) {
        if n.id == id {
            assert(ids_n(n)[0] == id);
        } else {
            let k = choose|k: int| 0 <= k < ids_f(n.children).len() && ids_f(n.children)[k] == id;
            assert(ids_n(n)[k + 1] == id);
        }
    }
    if ids_n(n).contains(id) {
        let k = choose|k: int| 0 <= k < ids_n(n).len() && ids_n(n)[k] == id;
        if k > 0 {
            assert(ids_f(n.children)[k - 1] == id);
            assert(ids_f(n.children).contains(id));
        }
    }
}

/// An id is contained in a forest exactly when it stands among its ids.
pub proof fn lemma_has_ids_f(s: Seq<NodeView>, id: u32)
    ensures
        has_f(s, id) == ids_f(s).contains(id),
    decreases s, 0int,
{
    if s.len() > 0 {
        let rest = s.subrange(1, s.len() as int);
        lemma_has_ids_n(s[0], id);
        lemma_has_ids_f(rest, id);
        lemma_has_f_cons(s, id);
        if ids_n(s[0]).contains(id) {
            let k = choose|k: int| 0 <= k < ids_n(s[0]).len() && ids_n(s[0])[k] == id;
            assert(ids_f(s)[k] == id);
        }
        if ids_f(rest).contains(id) {
            let k = choose|k: int| 0 <= k < ids_f(rest).len() && ids_f(rest)[k] == id;
            assert(ids_f(s)[ids_n(s[0]).len() + k] == id);
        }
        if ids_f(s).contains(id) {
            let k = choose|k: int| 0 <= k < ids_f(s).len() && ids_f(s)[k] == id;
            if k < ids_n(s[0]).len() {
                assert(ids_n(s[0])[k] == id);
                assert(ids_n(s[0]).contains(id));
            } else {
                assert(ids_f(rest)[k - ids_n(s[0]).len()] == id);
                assert(ids_f(rest).contains(id));
            }
        }
    }
}

// ---------------------------------------------------------------------------
// Toggling
// ---------------------------------------------------------------------------

/// Toggling acts on a forest tree by tree.
pub proof fn lemma_toggle_f_pointwise(s: Seq<NodeView>, id: u32)
    ensures
        toggle_f(s, id).len() == s.len(),
        forall|i: int| 0 <= i < s.len() ==> toggle_f(s, id)[i] == toggle_n(s[i], id),
    decreases s,
{
    if s.len() > 0 {
        let rest = s.subrange(1, s.len() as int);
        lemma_toggle_f_pointwise(rest, id);
        assert forall|i: int|
            0 <= i < s.len() implies toggle_f(s, id)[i] == toggle_n(s[i], id) by {
            if i > 0 {
                assert(rest[i - 1] == s[i]);
                assert(toggle_f(s, id)[i] == toggle_f(rest, id)[i - 1]);
            }
        }
    }
}

/// Toggling changes no id.
pub proof fn lemma_toggle_ids_n(n: NodeView, id: u32)
    ensures
        ids_n(toggle_n(n, id)) == ids_n(n),
    decreases n, 1int,
{
    lemma_toggle_ids_f(n.children, id);
}

pub proof fn lemma_toggle_ids_f(s: Seq<NodeView>, id: u32)
    ensures
        ids_f(toggle_f(s, id)) == ids_f(s),
    decreases s, 0int,
{
    if s.len() > 0 {
        let rest = s.subrange(1, s.len() as int);
        lemma_toggle_ids_n(s[0], id);
        lemma_toggle_ids_f(rest, id);
        let t = toggle_f(s, id);
        assert(t[0] == toggle_n(s[0], id));
        assert(t.subrange(1, t.len() as int) =~= toggle_f(rest, id));
        assert(ids_f(t) == ids_n(t[0]) + ids_f(t.subrange(1, t.len() as int)));
    }
}

/// Toggling preserves completion consistency: the flipped node and every
/// ancestor on the way back up are re-derived.
pub proof fn lemma_toggle_done_ok_n(n: NodeView, id: u32)
    requires
        done_ok_n(n),
    ensures
        done_ok_n(toggle_n(n, id)),
    decreases n,
{
    if n.id == id {
    } else if has_f(n.children, id) {
        lemma_toggle_f_pointwise(n.children, id);
        let c = toggle_f(n.children, id);
        assert forall|i: int| 0 <= i < c.len() implies done_ok_n(c[i]) by {
            assert(done_ok_n(n.children[i]));
            lemma_toggle_done_ok_n(n.children[i], id);
        }
        let i = choose|i: int| 0 <= i < n.children.len() && has_n(n.children[i], id);
        assert(c.len() > 0);
    }
}

pub proof fn lemma_toggle_done_ok_f(s: Seq<NodeView>, id: u32)
    requires
        done_ok_f(s),
    ensures
        done_ok_f(toggle_f(s, id)),
{
    lemma_toggle_f_pointwise(s, id);
    assert forall|i: int|
        0 <= i < toggle_f(s, id).len() implies done_ok_n(toggle_f(s, id)[i]) by {
        assert(done_ok_n(s[i]));
        lemma_toggle_done_ok_n(s[i], id);
    }
}

/// Does every node of this list report itself done?
fn all_children_done(v: &Vec<Node>) -> (r: bool)
    ensures
        r == all_done(view_nodes(v@)),
{
    let mut i: usize = 0;
    while i < v.len()
        invariant
            i <= v.len(),
            forall|j: int| 0 <= j < i ==> view_nodes(v@)[j].done,
        decreases v.len() - i,
    {
        if !v[i].done {
            proof {
                lemma_view_nodes(v@);
                assert(!view_nodes(v@)[i as int].done);
            }
            return false;
        }
        proof {
            lemma_view_nodes(v@);
        }
        i = i + 1;
    }
    proof {
        lemma_view_nodes(v@);
    }
    true
}

/// Re-derive this node's `done` from its children, if it has any: one
/// step of upward propagation.
fn refresh_node(n: Node) -> (r: Node)
    ensures
        view_node(r) == refresh(view_node(n)),
{
    proof {
        lemma_view_nodes(n.children@);
    }
    if n.children.len() > 0 {
        let d = all_children_done(&n.children);
        let r = Node { done: d, ..n };
        proof {
            assert(view_node(r) =~= refresh(view_node(n)));
        }
        r
    } else {
        n
    }
}

fn toggle_node(n: Node, id: u32) -> (res: (Node, bool))
    ensures
        view_node(res.0) == toggle_n(view_node(n), id),
        res.1 == has_n(view_node(n), id),
    decreases n, 1int,
{
    let Node { id: nid, title, done, children } = n;
    if nid == id {
        let flipped = Node { id: nid, title, done: !done, children };
        proof {
            assert(view_node(flipped) =~= (NodeView { done: !view_node(n).done, ..view_node(n) }));
        }
        let r = refresh_node(flipped);
        (r, true)
    } else {
        let (children2, found) = toggle_vec(children, id);
        let r0 = Node { id: nid, title, done, children: children2 };
        if found {
            proof {
                assert(view_node(r0) =~= (NodeView {
                    children: toggle_f(view_node(n).children, id),
                    ..view_node(n)
                }));
            }
            let r = refresh_node(r0);
            (r, true)
        } else {
            proof {
                lemma_toggle_same_f(view_nodes(children@), id);
                assert(view_node(r0) =~= view_node(n));
            }
            (r0, false)
        }
    }
}

fn toggle_vec(v: Vec<Node>, id: u32) -> (res: (Vec<Node>, bool))
    ensures
        view_nodes(res.0@) == toggle_f(view_nodes(v@), id),
        res.1 == has_f(view_nodes(v@), id),
    decreases v@, 0int,
{
    let ghost v0 = v@;
    let mut v = v;
    if v.len() == 0 {
        (v, false)
    } else {
        let first = v.remove(0);
        proof {
            assert(v@ =~= v0.subrange(1, v0.len() as int));
        }
        let (first2, f1) = toggle_node(first, id);
        let (rest2, f2) = toggle_vec(v, id);
        let mut out = rest2;
        out.insert(0, first2);
        proof {
            let sv = view_nodes(v0);
            assert(sv == seq![view_node(first)] + view_nodes(v@));
            assert(sv[0] == view_node(first));
            assert(sv.subrange(1, sv.len() as int) =~= view_nodes(v@));
            assert(out@[0] == first2);
            assert(out@.subrange(1, out@.len() as int) =~= rest2@);
            assert(view_nodes(out@) == seq![view_node(first2)] + view_nodes(rest2@));
            assert(toggle_f(sv, id) == seq![toggle_n(sv[0], id)]
                + toggle_f(sv.subrange(1, sv.len() as int), id));
            lemma_has_f_cons(sv, id);
        }
        (out, f1 || f2)
    }
}

impl Tree {
    /// Flip the `done` flag of the node carrying `id`, then re-derive the
    /// flags of that node and of all its ancestors. On a node with
    /// children the flip is immediately overridden by the re-derivation,
    /// so only a leaf's flag is set by caller intent. Reports whether the
    /// id was found; an unknown id leaves the forest unchanged.
    pub fn toggle(&mut self, id: u32) -> (found: bool)
        requires
            old(self).wf(),
        ensures
            final(self).wf(),
            final(self).forest() == toggle_f(old(self).forest(), id),
            final(self).next() == old(self).next(),
            found == has_f(old(self).forest(), id),
            !has_f(old(self).forest(), id) ==> final(self).forest() == old(self).forest(),
    {
        let mut roots: Vec<Node> = Vec::new();
        core::mem::swap(&mut roots, &mut self.roots);
        let (roots2, found) = toggle_vec(roots, id);
        self.roots = roots2;
        proof {
            lemma_toggle_ids_f(old(self).forest(), id);
            lemma_toggle_done_ok_f(old(self).forest(), id);
            if !has_f(old(self).forest(), id) {
                lemma_toggle_same_f(old(self).forest(), id);
            }
        }
        found
    }
}

/// A forest without the id is left untouched by toggling.
pub proof fn lemma_toggle_same_n(n: NodeView, id: u32)
    requires
        !has_n(n, id),
    ensures
        toggle_n(n, id) == n,
    decreases n, 1int,
{
}

pub proof fn lemma_toggle_same_f(s: Seq<NodeView>, id: u32)
    requires
        !has_f(s, id),
    ensures
        toggle_f(s, id) == s,
    decreases s, 0int,
{
    if s.len() > 0 {
        let rest = s.subrange(1, s.len() as int);
        lemma_has_f_cons(s, id);
        lemma_toggle_same_n(s[0], id);
        lemma_toggle_same_f(rest, id);
        assert(toggle_f(s, id) =~= s);
    }
}


// ---------------------------------------------------------------------------
// Concatenation helpers
// ---------------------------------------------------------------------------

pub proof fn lemma_below_concat(a: Seq<u32>, b: Seq<u32>, lim: u32)
    ensures
        below(a + b, lim) == (below(a, lim) && below(b, lim)),
{
    if below(a, lim) && below(b, lim) {
        assert forall|k: int| 0 <= k < (a + b).len() implies (a + b)[k] < lim by {
            if k < a.len() {
                assert((a + b)[k] == a[k]);
            } else {
                assert((a + b)[k] == b[k - a.len()]);
            }
        }
    }
    if below(a + b, lim) {
        assert forall|k: int| 0 <= k < a.len() implies a[k] < lim by {
            assert((a + b)[k] == a[k]);
        }
        assert forall|k: int| 0 <= k < b.len() implies b[k] < lim by {
            assert((a + b)[a.len() + k] == b[k]);
        }
    }
}

pub proof fn lemma_contains_concat(a: Seq<u32>, b: Seq<u32>, x: u32)
    ensures
        (a + b).contains(x) == (a.contains(x) || b.contains(x)),
{
    if a.contains(x) {
        let k = choose|k: int| 0 <= k < a.len() && a[k] == x;
        assert((a + b)[k] == x);
    }
    if b.contains(x) {
        let k = choose|k: int| 0 <= k < b.len() && b[k] == x;
        assert((a + b)[a.len() + k] == x);
    }
    if (a + b).contains(x) {
        let k = choose|k: int| 0 <= k < (a + b).len() && (a + b)[k] == x;
        if k < a.len() {
            assert(a[k] == x);
        } else {
            assert(b[k - a.len()] == x);
        }
    }
}

// ---------------------------------------------------------------------------
// Lookup
// ---------------------------------------------------------------------------

/// `get` finds a subtree exactly when the id is present; the subtree's
/// root carries the id, and in a consistent tree it is itself consistent.
pub proof fn lemma_get_n(n: NodeView, id: u32)
    ensures
        get_n(n, id) is Some <==> has_n(n, id),
        has_n(n, id) ==> get_n(n, id).unwrap().id == id,
        has_n(n, id) && done_ok_n(n) ==> done_ok_n(get_n(n, id).unwrap()),
    decreases n, 1int,
{
    lemma_get_f(n.children, id);
}

pub proof fn lemma_get_f(s: Seq<NodeView>, id: u32)
    ensures
        get_f(s, id) is Some <==> has_f(s, id),
        has_f(s, id) ==> get_f(s, id).unwrap().id == id,
        has_f(s, id) && done_ok_f(s) ==> done_ok_n(get_f(s, id).unwrap()),
    decreases s, 0int,
{
    if s.len() > 0 {
        let rest = s.subrange(1, s.len() as int);
        lemma_has_f_cons(s, id);
        lemma_get_n(s[0], id);
        lemma_get_f(rest, id);
        if !has_n(s[0], id) && has_f(rest, id) {
            let k = choose|k: int| 0 <= k < rest.len() && has_n(rest[k], id);
            assert(done_ok_f(s) ==> done_ok_n(rest[k]) && done_ok_f(rest)) by {
                if done_ok_f(s) {
                    assert forall|i: int| 0 <= i < rest.len() implies done_ok_n(rest[i]) by {
                        assert(rest[i] == s[i + 1]);
                    }
                }
            }
        }
        if has_n(s[0], id) && done_ok_f(s) {
            assert(done_ok_n(s[0]));
        }
    }
}

// ---------------------------------------------------------------------------
// Detaching a subtree
// ---------------------------------------------------------------------------

/// Detaching splits the preorder id list into the part before the
/// detached subtree, the subtree's own ids, and the part after: the
/// witness pair returned is that before/after context.
pub proof fn lemma_remove_ids_n(n: NodeView, id: u32) -> (r: (Seq<u32>, Seq<u32>))
    requires
        has_f(n.children, id),
    ensures
        ids_n(n) == r.0 + ids_n(get_f(n.children, id).unwrap()) + r.1,
        ids_n(remove_n(n, id)) == r.0 + r.1,
    decreases n, 1int,
{
    let (a, b) = lemma_remove_ids_f(n.children, id);
    let mid = ids_n(get_f(n.children, id).unwrap());
    assert(ids_n(n) =~= (seq![n.id] + a) + mid + b);
    assert(ids_n(remove_n(n, id)) =~= (seq![n.id] + a) + b);
    (seq![n.id] + a, b)
}

pub proof fn lemma_remove_ids_f(s: Seq<NodeView>, id: u32) -> (r: (Seq<u32>, Seq<u32>))
    requires
        has_f(s, id),
    ensures
        ids_f(s) == r.0 + ids_n(get_f(s, id).unwrap()) + r.1,
        ids_f(remove_f(s, id)) == r.0 + r.1,
    decreases s, 0int,
{
    let rest = s.subrange(1, s.len() as int);
    lemma_has_f_cons(s, id);
    if s[0].id == id {
        assert(has_n(s[0], id));
        assert(get_n(s[0], id) == Some(s[0]));
        assert(get_f(s, id) == Some(s[0]));
        assert(ids_f(s) =~= Seq::<u32>::empty() + ids_n(s[0]) + ids_f(rest));
        assert(ids_f(remove_f(s, id)) =~= Seq::<u32>::empty() + ids_f(rest));
        (Seq::<u32>::empty(), ids_f(rest))
    } else if has_n(s[0], id) {
        let (a, b) = lemma_remove_ids_n(s[0], id);
        assert(get_f(s, id) == get_n(s[0], id));
        assert(get_f(s, id) == get_f(s[0].children, id));
        let mid = ids_n(get_f(s, id).unwrap());
        assert(ids_f(s) =~= a + mid + (b + ids_f(rest)));
        let t = remove_f(s, id);
        assert(t == seq![remove_n(s[0], id)] + rest);
        assert(t[0] == remove_n(s[0], id));
        assert(t.subrange(1, t.len() as int) =~= rest);
        assert(ids_f(t) == ids_n(remove_n(s[0], id)) + ids_f(rest));
        assert(ids_f(remove_f(s, id)) =~= a + (b + ids_f(rest)));
        (a, b + ids_f(rest))
    } else {
        let (a, b) = lemma_remove_ids_f(rest, id);
        let mid = ids_n(get_f(rest, id).unwrap());
        assert(get_f(s, id) == get_f(rest, id));
        assert(ids_f(s) =~= (ids_n(s[0]) + a) + mid + b);
        let t = remove_f(s, id);
        assert(t == seq![s[0]] + remove_f(rest, id));
        assert(t[0] == s[0]);
        assert(t.subrange(1, t.len() as int) =~= remove_f(rest, id));
        assert(ids_f(t) == ids_n(s[0]) + ids_f(remove_f(rest, id)));
        assert(ids_f(remove_f(s, id)) =~= (ids_n(s[0]) + a) + b);
        (ids_n(s[0]) + a, b)
    }
}

/// Detaching preserves completion consistency: every ancestor of the
/// detached node is re-derived; in particular a parent left childless
/// keeps the flag it had.
pub proof fn lemma_remove_done_ok_n(n: NodeView, id: u32)
    requires
        done_ok_n(n),
    ensures
        done_ok_n(remove_n(n, id)),
    decreases n, 1int,
{
    if has_f(n.children, id) {
        lemma_remove_done_ok_f(n.children, id);
    }
}

pub proof fn lemma_remove_done_ok_f(s: Seq<NodeView>, id: u32)
    requires
        done_ok_f(s),
    ensures
        done_ok_f(remove_f(s, id)),
    decreases s, 0int,
{
    if s.len() > 0 {
        let rest = s.subrange(1, s.len() as int);
        assert forall|i: int| 0 <= i < rest.len() implies done_ok_n(rest[i]) by {
            assert(rest[i] == s[i + 1]);
        }
        if s[0].id == id {
        } else if has_n(s[0], id) {
            assert(done_ok_n(s[0]));
            lemma_remove_done_ok_n(s[0], id);
            let t = remove_f(s, id);
            assert forall|i: int| 0 <= i < t.len() implies done_ok_n(t[i]) by {
                if i == 0 {
                    assert(t[0] == remove_n(s[0], id));
                } else {
                    assert(t[i] == rest[i - 1]);
                }
            }
        } else {
            lemma_remove_done_ok_f(rest, id);
            let t = remove_f(s, id);
            assert forall|i: int| 0 <= i < t.len() implies done_ok_n(t[i]) by {
                if i == 0 {
                    assert(t[0] == s[0]);
                } else {
                    assert(t[i] == remove_f(rest, id)[i - 1]);
                }
            }
        }
    }
}

// ---------------------------------------------------------------------------
// Membership search
// ---------------------------------------------------------------------------

/// Is a node with this id somewhere in the subtree rooted at `n`?
pub fn is_descendant(n: &Node, id: u32) -> (r: bool)
    ensures
        r == has_n(view_node(*n), id),
    decreases *n, 1int,
{
    if n.id == id {
        return true;
    }
    let ghost cs = view_nodes(n.children@);
    let mut i: usize = 0;
    while i < n.children.len()
        invariant
            i <= n.children.len(),
            cs == view_nodes(n.children@),
            forall|j: int| 0 <= j < i ==> !has_n(cs[j], id),
        decreases n.children.len() - i,
    {
        proof {
            lemma_view_nodes(n.children@);
        }
        if is_descendant(&n.children[i], id) {
            proof {
                assert(has_n(cs[i as int], id));
            }
            return true;
        }
        i = i + 1;
    }
    proof {
        lemma_view_nodes(n.children@);
        assert(!has_f(cs, id));
    }
    false
}

/// Is a node with this id somewhere in this forest?
fn has_vec(v: &Vec<Node>, id: u32) -> (r: bool)
    ensures
        r == has_f(view_nodes(v@), id),
{
    let ghost sv = view_nodes(v@);
    let mut i: usize = 0;
    while i < v.len()
        invariant
            i <= v.len(),
            sv == view_nodes(v@),
            forall|j: int| 0 <= j < i ==> !has_n(sv[j], id),
        decreases v.len() - i,
    {
        proof {
            lemma_view_nodes(v@);
        }
        if is_descendant(&v[i], id) {
            proof {
                assert(has_n(sv[i as int], id));
            }
            return true;
        }
        i = i + 1;
    }
    proof {
        lemma_view_nodes(v@);
    }
    false
}


/// A forest without the id is left untouched by detaching.
pub proof fn lemma_remove_same_f(s: Seq<NodeView>, id: u32)
    requires
        !has_f(s, id),
    ensures
        remove_f(s, id) == s,
    decreases s, 0int,
{
    if s.len() > 0 {
        let rest = s.subrange(1, s.len() as int);
        lemma_has_f_cons(s, id);
        lemma_remove_same_f(rest, id);
        assert(remove_f(s, id) =~= s);
    }
}

fn detach_node(n: Node, id: u32) -> (res: (Node, Option<Node>))
    ensures
        view_node(res.0) == remove_n(view_node(n), id),
        res.1 is Some == has_f(view_node(n).children, id),
        res.1 is Some ==> view_node(res.1.unwrap()) == get_f(view_node(n).children, id).unwrap(),
    decreases n, 1int,
{
    let Node { id: nid, title, done, children } = n;
    let (children2, got) = detach_vec(children, id);
    let r0 = Node { id: nid, title, done, children: children2 };
    if got.is_some() {
        proof {
            assert(view_node(r0) =~= (NodeView {
                children: remove_f(view_node(n).children, id),
                ..view_node(n)
            }));
        }
        (refresh_node(r0), got)
    } else {
        proof {
            lemma_remove_same_f(view_nodes(children@), id);
            assert(view_node(r0) =~= view_node(n));
        }
        (r0, got)
    }
}

fn detach_vec(v: Vec<Node>, id: u32) -> (res: (Vec<Node>, Option<Node>))
    ensures
        view_nodes(res.0@) == remove_f(view_nodes(v@), id),
        res.1 is Some == has_f(view_nodes(v@), id),
        res.1 is Some ==> view_node(res.1.unwrap()) == get_f(view_nodes(v@), id).unwrap(),
    decreases v@, 0int,
{
    let ghost v0 = v@;
    let mut v = v;
    if v.len() == 0 {
        (v, None)
    } else {
        let first = v.remove(0);
        proof {
            assert(v@ =~= v0.subrange(1, v0.len() as int));
            let sv = view_nodes(v0);
            assert(sv == seq![view_node(first)] + view_nodes(v@));
            assert(sv[0] == view_node(first));
            assert(sv.subrange(1, sv.len() as int) =~= view_nodes(v@));
            lemma_has_f_cons(sv, id);
        }
        if first.id == id {
            proof {
                let sv = view_nodes(v0);
                assert(has_n(sv[0], id));
                assert(get_n(sv[0], id) == Some(sv[0]));
                assert(get_f(sv, id) == Some(sv[0]));
                assert(remove_f(sv, id) == sv.subrange(1, sv.len() as int));
            }
            (v, Some(first))
        } else if is_descendant(&first, id) {
            let (first2, got) = detach_node(first, id);
            let ghost vrest = v@;
            let mut out = v;
            out.insert(0, first2);
            proof {
                let sv = view_nodes(v0);
                assert(out@ =~= seq![first2] + vrest);
                assert(out@[0] == first2);
                assert(out@.subrange(1, out@.len() as int) =~= vrest);
                assert(view_nodes(out@) == seq![view_node(first2)] + view_nodes(vrest));
                assert(remove_f(sv, id) == seq![remove_n(sv[0], id)]
                    + sv.subrange(1, sv.len() as int));
                assert(get_f(sv, id) == get_n(sv[0], id));
                assert(get_f(sv, id) == get_f(sv[0].children, id));
            }
            (out, got)
        } else {
            let (rest2, got) = detach_vec(v, id);
            let ghost vrest = rest2@;
            let mut out = rest2;
            out.insert(0, first);
            proof {
                let sv = view_nodes(v0);
                assert(out@ =~= seq![first] + vrest);
                assert(out@[0] == first);
                assert(out@.subrange(1, out@.len() as int) =~= vrest);
                assert(view_nodes(out@) == seq![view_node(first)] + view_nodes(vrest));
                assert(remove_f(sv, id) == seq![sv[0]]
                    + remove_f(sv.subrange(1, sv.len() as int), id));
            }
            (out, got)
        }
    }
}

impl Tree {
    /// Delete the node carrying `id` together with its whole subtree.
    /// The former parent and its ancestors re-derive their flags; a
    /// parent left childless keeps the flag it had. Reports whether the
    /// id was found; an unknown id leaves the forest unchanged. None of
    /// the deleted ids can be found afterwards, and the number of
    /// reachable nodes shrinks by exactly the deleted subtree's size.
    pub fn delete(&mut self, id: u32) -> (found: bool)
        requires
            old(self).wf(),
        ensures
            final(self).wf(),
            found == has_f(old(self).forest(), id),
            final(self).forest() == remove_f(old(self).forest(), id),
            final(self).next() == old(self).next(),
            !found ==> final(self).forest() == old(self).forest(),
            found ==> ids_f(final(self).forest()).len()
                + ids_n(get_f(old(self).forest(), id).unwrap()).len()
                == ids_f(old(self).forest()).len(),
            found ==> forall|x: u32|
                has_n(get_f(old(self).forest(), id).unwrap(), x)
                    ==> !has_f(final(self).forest(), x),
    {
        let mut roots: Vec<Node> = Vec::new();
        core::mem::swap(&mut roots, &mut self.roots);
        let (roots2, got) = detach_vec(roots, id);
        self.roots = roots2;
        proof {
            let f0 = old(self).forest();
            lemma_remove_done_ok_f(f0, id);
            if has_f(f0, id) {
                let (a, b) = lemma_remove_ids_f(f0, id);
                let sub = get_f(f0, id).unwrap();
                let mid = ids_n(sub);
                assert(ids_f(f0) == (a + mid) + b);
                lemma_nodup_split(a + mid, b);
                lemma_nodup_split(a, mid);
                assert(a.disjoint(b)) by {
                    assert forall|i: int, j: int|
                        0 <= i < a.len() && 0 <= j < b.len() implies a[i] != b[j] by {
                        assert((a + mid)[i] == a[i]);
                    }
                }
                lemma_nodup_split(a, b);
                assert(ids_f(self.forest()) == a + b);
                lemma_below_concat(a + mid, b, old(self).next());
                lemma_below_concat(a, mid, old(self).next());
                lemma_below_concat(a, b, old(self).next());
                assert forall|x: u32|
                    has_n(sub, x) implies !has_f(self.forest(), x) by {
                    lemma_has_ids_n(sub, x);
                    lemma_has_ids_f(self.forest(), x);
                    lemma_contains_concat(a, b, x);
                    let k = choose|k: int| 0 <= k < mid.len() && mid[k] == x;
                    assert(!a.contains(x)) by {
                        if a.contains(x) {
                            let ka = choose|ka: int| 0 <= ka < a.len() && a[ka] == x;
                            assert(a[ka] != mid[k]);
                        }
                    }
                    assert(!b.contains(x)) by {
                        if b.contains(x) {
                            let kb = choose|kb: int| 0 <= kb < b.len() && b[kb] == x;
                            assert((a + mid)[a.len() + k] == mid[k]);
                            assert((a + mid)[a.len() + k] != b[kb]);
                        }
                    }
                }
            } else {
                lemma_remove_same_f(f0, id);
            }
        }
        got.is_some()
    }

    /// A read-only handle to the node carrying `id`: pure lookup, no
    /// mutation, no propagation.
    pub fn get(&self, id: u32) -> (r: Option<&Node>)
        ensures
            r is Some == has_f(self.forest(), id),
            r is Some ==> view_node(*r.unwrap()) == get_f(self.forest(), id).unwrap(),
    {
        get_vec(&self.roots, id)
    }
}

fn get_node<'a>(n: &'a Node, id: u32) -> (r: Option<&'a Node>)
    ensures
        r is Some == has_n(view_node(*n), id),
        r is Some ==> view_node(*r.unwrap()) == get_n(view_node(*n), id).unwrap(),
    decreases *n, 1int,
{
    if n.id == id {
        Some(n)
    } else {
        proof {
            lemma_get_f(view_node(*n).children, id);
        }
        get_vec(&n.children, id)
    }
}

fn get_vec<'a>(v: &'a Vec<Node>, id: u32) -> (r: Option<&'a Node>)
    ensures
        r is Some == has_f(view_nodes(v@), id),
        r is Some ==> view_node(*r.unwrap()) == get_f(view_nodes(v@), id).unwrap(),
    decreases v@, 0int,
{
    let ghost sv = view_nodes(v@);
    let mut i: usize = 0;
    while i < v.len()
        invariant
            i <= v.len(),
            sv == view_nodes(v@),
            forall|j: int| 0 <= j < i ==> !has_n(sv[j], id),
        decreases v.len() - i,
    {
        proof {
            lemma_view_nodes(v@);
        }
        if is_descendant(&v[i], id) {
            let r = get_node(&v[i], id);
            proof {
                assert(has_n(sv[i as int], id));
                lemma_get_first(sv, id, i as int);
            }
            return r;
        }
        i = i + 1;
    }
    proof {
        lemma_view_nodes(v@);
    }
    None
}

/// `get` on a forest answers from the first tree that contains the id.
proof fn lemma_get_first(s: Seq<NodeView>, id: u32, i: int)
    requires
        0 <= i < s.len(),
        has_n(s[i], id),
        forall|j: int| 0 <= j < i ==> !has_n(s[j], id),
    ensures
        has_f(s, id),
        get_f(s, id) == get_n(s[i], id),
    decreases s.len(),
{
    let rest = s.subrange(1, s.len() as int);
    if i == 0 {
        assert(get_f(s, id) == get_n(s[0], id));
    } else {
        assert forall|j: int| 0 <= j < i - 1 implies !has_n(rest[j], id) by {
            assert(rest[j] == s[j + 1]);
        }
        assert(rest[i - 1] == s[i]);
        lemma_get_first(rest, id, i - 1);
        assert(!has_n(s[0], id));
        assert(get_f(s, id) == get_f(rest, id));
    }
}


// ---------------------------------------------------------------------------
// Inserting a block of ids
// ---------------------------------------------------------------------------

pub proof fn lemma_below3(a: Seq<u32>, m: Seq<u32>, b: Seq<u32>, lim: u32)
    ensures
        below(a + m + b, lim) == (below(a, lim) && below(m, lim) && below(b, lim)),
{
    lemma_below_concat(a + m, b, lim);
    lemma_below_concat(a, m, lim);
}

/// A duplicate-free block of fresh ids can stand in the middle of a
/// duplicate-free list.
pub proof fn lemma_mid_nodup(a: Seq<u32>, m: Seq<u32>, b: Seq<u32>)
    requires
        (a + b).no_duplicates(),
        m.no_duplicates(),
        forall|x: u32| m.contains(x) ==> !(a + b).contains(x),
    ensures
        (a + m + b).no_duplicates(),
{
    lemma_nodup_split(a, b);
    assert(a.disjoint(m)) by {
        assert forall|i: int, j: int|
            0 <= i < a.len() && 0 <= j < m.len() implies a[i] != m[j] by {
            if a[i] == m[j] {
                assert(m.contains(m[j]));
                assert((a + b)[i] == a[i]);
                assert((a + b).contains(m[j]));
            }
        }
    }
    assert(m.disjoint(b)) by {
        assert forall|i: int, j: int|
            0 <= i < m.len() && 0 <= j < b.len() implies m[i] != b[j] by {
            if m[i] == b[j] {
                assert(m.contains(m[i]));
                assert((a + b)[a.len() + j] == b[j]);
                assert((a + b).contains(m[i]));
            }
        }
    }
    lemma_nodup_split(a, m);
    assert((a + m).disjoint(b)) by {
        assert forall|i: int, j: int|
            0 <= i < (a + m).len() && 0 <= j < b.len() implies (a + m)[i] != b[j] by {
            if i < a.len() {
                assert((a + m)[i] == a[i]);
                assert((a + b)[i] == a[i]);
                assert((a + b)[a.len() + j] == b[j]);
            } else {
                assert((a + m)[i] == m[i - a.len()]);
            }
        }
    }
    lemma_nodup_split(a + m, b);
}

/// Conversely, the middle block of a duplicate-free list is itself
/// duplicate-free and foreign to the rest.
pub proof fn lemma_mid_extract(a: Seq<u32>, m: Seq<u32>, b: Seq<u32>)
    requires
        (a + m + b).no_duplicates(),
    ensures
        (a + b).no_duplicates(),
        m.no_duplicates(),
        forall|x: u32| m.contains(x) ==> !(a + b).contains(x),
{
    lemma_nodup_split(a + m, b);
    lemma_nodup_split(a, m);
    assert(a.disjoint(b)) by {
        assert forall|i: int, j: int|
            0 <= i < a.len() && 0 <= j < b.len() implies a[i] != b[j] by {
            assert((a + m)[i] == a[i]);
        }
    }
    lemma_nodup_split(a, b);
    assert forall|x: u32| m.contains(x) implies !(a + b).contains(x) by {
        let k = choose|k: int| 0 <= k < m.len() && m[k] == x;
        if (a + b).contains(x) {
            let j = choose|j: int| 0 <= j < (a + b).len() && (a + b)[j] == x;
            if j < a.len() {
                assert(a[j] == x);
                assert((a + m)[a.len() + k] == m[k]);
                assert((a + m)[j] == a[j]);
            } else {
                assert(b[j - a.len()] == x);
                assert((a + m)[a.len() + k] == m[k]);
            }
        }
    }
}

// ---------------------------------------------------------------------------
// Attaching a subtree
// ---------------------------------------------------------------------------

/// Attaching inserts the subtree's ids as one block right after the ids
/// already below the new parent; the witness pair is the surrounding
/// before/after context.
pub proof fn lemma_attach_ids_n(n: NodeView, pid: u32, sub: NodeView) -> (r: (Seq<u32>, Seq<u32>))
    requires
        has_n(n, pid),
    ensures
        ids_n(n) == r.0 + r.1,
        ids_n(attach_n(n, pid, sub)) == r.0 + ids_n(sub) + r.1,
    decreases n, 1int,
{
    if n.id == pid {
        lemma_ids_f_push(n.children, sub);
        assert(ids_n(attach_n(n, pid, sub)) == seq![n.id] + (ids_f(n.children) + ids_n(sub)));
        assert(ids_n(n) =~= ids_n(n) + Seq::<u32>::empty());
        assert(ids_n(attach_n(n, pid, sub)) =~= ids_n(n) + ids_n(sub) + Seq::<u32>::empty());
        (ids_n(n), Seq::<u32>::empty())
    } else {
        let (a, b) = lemma_attach_ids_f(n.children, pid, sub);
        assert(ids_n(n) =~= (seq![n.id] + a) + b);
        assert(ids_n(attach_n(n, pid, sub)) =~= (seq![n.id] + a) + ids_n(sub) + b);
        (seq![n.id] + a, b)
    }
}

pub proof fn lemma_attach_ids_f(s: Seq<NodeView>, pid: u32, sub: NodeView) -> (r: (Seq<u32>, Seq<u32>))
    requires
        has_f(s, pid),
    ensures
        ids_f(s) == r.0 + r.1,
        ids_f(attach_f(s, pid, sub)) == r.0 + ids_n(sub) + r.1,
    decreases s, 0int,
{
    let rest = s.subrange(1, s.len() as int);
    lemma_has_f_cons(s, pid);
    if has_n(s[0], pid) {
        let (a, b) = lemma_attach_ids_n(s[0], pid, sub);
        let t = attach_f(s, pid, sub);
        assert(t == seq![attach_n(s[0], pid, sub)] + rest);
        assert(t[0] == attach_n(s[0], pid, sub));
        assert(t.subrange(1, t.len() as int) =~= rest);
        assert(ids_f(t) == ids_n(attach_n(s[0], pid, sub)) + ids_f(rest));
        assert(ids_f(s) =~= a + (b + ids_f(rest)));
        assert(ids_f(t) =~= a + ids_n(sub) + (b + ids_f(rest)));
        (a, b + ids_f(rest))
    } else {
        let (a, b) = lemma_attach_ids_f(rest, pid, sub);
        let t = attach_f(s, pid, sub);
        assert(t == seq![s[0]] + attach_f(rest, pid, sub));
        assert(t[0] == s[0]);
        assert(t.subrange(1, t.len() as int) =~= attach_f(rest, pid, sub));
        assert(ids_f(t) == ids_n(s[0]) + ids_f(attach_f(rest, pid, sub)));
        assert(ids_f(s) =~= (ids_n(s[0]) + a) + b);
        assert(ids_f(t) =~= (ids_n(s[0]) + a) + ids_n(sub) + b);
        (ids_n(s[0]) + a, b)
    }
}

/// Attaching a consistent subtree preserves completion consistency: the
/// new parent and its ancestors are re-derived.
pub proof fn lemma_attach_done_ok_n(n: NodeView, pid: u32, sub: NodeView)
    requires
        done_ok_n(n),
        done_ok_n(sub),
        has_n(n, pid),
    ensures
        done_ok_n(attach_n(n, pid, sub)),
    decreases n, 1int,
{
    if n.id == pid {
        let c = n.children.push(sub);
        assert forall|i: int| 0 <= i < c.len() implies done_ok_n(c[i]) by {
            if i < n.children.len() {
                assert(c[i] == n.children[i]);
            } else {
                assert(c[i] == sub);
            }
        }
    } else {
        lemma_attach_done_ok_f(n.children, pid, sub);
        let i = choose|i: int| 0 <= i < n.children.len() && has_n(n.children[i], pid);
    }
}

pub proof fn lemma_attach_done_ok_f(s: Seq<NodeView>, pid: u32, sub: NodeView)
    requires
        done_ok_f(s),
        done_ok_n(sub),
        has_f(s, pid),
    ensures
        done_ok_f(attach_f(s, pid, sub)),
        attach_f(s, pid, sub).len() == s.len(),
    decreases s, 0int,
{
    let rest = s.subrange(1, s.len() as int);
    lemma_has_f_cons(s, pid);
    assert forall|i: int| 0 <= i < rest.len() implies done_ok_n(rest[i]) by {
        assert(rest[i] == s[i + 1]);
    }
    if has_n(s[0], pid) {
        assert(done_ok_n(s[0]));
        lemma_attach_done_ok_n(s[0], pid, sub);
        let t = attach_f(s, pid, sub);
        assert forall|i: int| 0 <= i < t.len() implies done_ok_n(t[i]) by {
            if i == 0 {
                assert(t[0] == attach_n(s[0], pid, sub));
            } else {
                assert(t[i] == rest[i - 1]);
            }
        }
    } else {
        lemma_attach_done_ok_f(rest, pid, sub);
        let t = attach_f(s, pid, sub);
        assert forall|i: int| 0 <= i < t.len() implies done_ok_n(t[i]) by {
            if i == 0 {
                assert(t[0] == s[0]);
            } else {
                assert(t[i] == attach_f(rest, pid, sub)[i - 1]);
            }
        }
    }
}

fn attach_node(n: Node, pid: u32, sub: Node) -> (r: Node)
    requires
        has_n(view_node(n), pid),
    ensures
        view_node(r) == attach_n(view_node(n), pid, view_node(sub)),
    decreases n, 1int,
{
    let Node { id: nid, title, done, children } = n;
    if nid == pid {
        let ghost c0 = children@;
        let ghost subv = view_node(sub);
        let mut children2 = children;
        children2.push(sub);
        let r0 = Node { id: nid, title, done, children: children2 };
        proof {
            lemma_view_nodes(c0);
            lemma_view_nodes(children2@);
            assert(children2@ == c0.push(sub));
            assert forall|i: int|
                0 <= i < children2@.len()
                implies view_nodes(children2@)[i] == view_nodes(c0).push(subv)[i] by {
                if i < c0.len() {
                    assert(children2@[i] == c0[i]);
                } else {
                    assert(children2@[i] == sub);
                }
            }
            assert(view_nodes(children2@) =~= view_nodes(c0).push(subv));
            assert(view_node(r0) =~= (NodeView {
                children: view_node(n).children.push(subv),
                ..view_node(n)
            }));
        }
        refresh_node(r0)
    } else {
        let children2 = attach_vec(children, pid, sub);
        let r0 = Node { id: nid, title, done, children: children2 };
        proof {
            assert(view_node(r0) =~= (NodeView {
                children: attach_f(view_node(n).children, pid, view_node(sub)),
                ..view_node(n)
            }));
        }
        refresh_node(r0)
    }
}

fn attach_vec(v: Vec<Node>, pid: u32, sub: Node) -> (r: Vec<Node>)
    requires
        has_f(view_nodes(v@), pid),
    ensures
        view_nodes(r@) == attach_f(view_nodes(v@), pid, view_node(sub)),
    decreases v@, 0int,
{
    let ghost v0 = v@;
    let ghost subv = view_node(sub);
    let mut v = v;
    proof {
        lemma_view_nodes(v0);
        assert(view_nodes(v0).len() > 0);
    }
    let first = v.remove(0);
    proof {
        assert(v@ =~= v0.subrange(1, v0.len() as int));
        let sv = view_nodes(v0);
        assert(sv == seq![view_node(first)] + view_nodes(v@));
        assert(sv[0] == view_node(first));
        assert(sv.subrange(1, sv.len() as int) =~= view_nodes(v@));
        lemma_has_f_cons(sv, pid);
    }
    if is_descendant(&first, pid) {
        let first2 = attach_node(first, pid, sub);
        let ghost vrest = v@;
        let mut out = v;
        out.insert(0, first2);
        proof {
            let sv = view_nodes(v0);
            assert(out@ =~= seq![first2] + vrest);
            assert(out@[0] == first2);
            assert(out@.subrange(1, out@.len() as int) =~= vrest);
            assert(view_nodes(out@) == seq![view_node(first2)] + view_nodes(vrest));
            assert(attach_f(sv, pid, subv) == seq![attach_n(sv[0], pid, subv)]
                + sv.subrange(1, sv.len() as int));
        }
        out
    } else {
        let rest2 = attach_vec(v, pid, sub);
        let ghost vrest = rest2@;
        let mut out = rest2;
        out.insert(0, first);
        proof {
            let sv = view_nodes(v0);
            assert(out@ =~= seq![first] + vrest);
            assert(out@[0] == first);
            assert(out@.subrange(1, out@.len() as int) =~= vrest);
            assert(view_nodes(out@) == seq![view_node(first)] + view_nodes(vrest));
            assert(attach_f(sv, pid, subv) == seq![sv[0]]
                + attach_f(sv.subrange(1, sv.len() as int), pid, subv));
        }
        out
    }
}

impl Tree {
    /// Add a child under `parent_id`. An unknown parent is rejected
    /// before any change. On success the fresh node starts not done, so
    /// the parent and its ancestors re-derive their flags.
    pub fn add_child(&mut self, parent_id: u32, title: String) -> (r: Option<u32>)
        requires
            old(self).wf(),
            old(self).next() < u32::MAX,
        ensures
            final(self).wf(),
            r is Some == has_f(old(self).forest(), parent_id),
            r is None ==> final(self).forest() == old(self).forest()
                && final(self).next() == old(self).next(),
            r is Some ==> r.unwrap() == old(self).next()
                && final(self).next() == old(self).next() + 1
                && !has_f(old(self).forest(), r.unwrap())
                && final(self).forest() == attach_f(
                old(self).forest(),
                parent_id,
                NodeView {
                    id: old(self).next(),
                    title: title@,
                    done: false,
                    children: Seq::<NodeView>::empty(),
                },
            ),
    {
        if !has_vec(&self.roots, parent_id) {
            return None;
        }
        let id = self.alloc_id();
        let child = Node::new(id, title);
        let ghost nv = view_node(child);
        let mut roots: Vec<Node> = Vec::new();
        core::mem::swap(&mut roots, &mut self.roots);
        let roots2 = attach_vec(roots, parent_id, child);
        self.roots = roots2;
        proof {
            let f0 = old(self).forest();
            assert(done_ok_n(nv)) by {
                assert(nv.children.len() == 0);
                assert(done_ok_f(nv.children));
            }
            lemma_attach_done_ok_f(f0, parent_id, nv);
            let (a, b) = lemma_attach_ids_f(f0, parent_id, nv);
            let mid = ids_n(nv);
            assert(mid =~= seq![id]);
            assert(mid.no_duplicates());
            assert(below(a + b, id));
            assert forall|x: u32| mid.contains(x) implies !(a + b).contains(x) by {
                if (a + b).contains(x) {
                    let k = choose|k: int| 0 <= k < (a + b).len() && (a + b)[k] == x;
                    assert((a + b)[k] < id);
                    assert(mid[0] == id);
                }
            }
            lemma_mid_nodup(a, mid, b);
            lemma_below_concat(a, b, id);
            lemma_below3(a, mid, b, self.next_id);
            assert(!ids_f(f0).contains(id)) by {
                if ids_f(f0).contains(id) {
                    let k = choose|k: int| 0 <= k < ids_f(f0).len() && ids_f(f0)[k] == id;
                    assert(ids_f(f0)[k] < id);
                }
            }
            lemma_has_ids_f(f0, id);
        }
        Some(id)
    }
}


impl Tree {
    /// Reparent the node carrying `id` under `new_parent_id`. The move
    /// is rejected, with the forest left unchanged, when it would
    /// self-parent, when either id is unknown, or when the new parent
    /// lies inside the moved subtree (which would create a cycle). On
    /// success the subtree is detached exactly as in deletion, the old
    /// ancestors re-derive their flags, and the subtree is appended to
    /// the new parent's children, whose ancestors re-derive in turn.
    pub fn move_node(&mut self, id: u32, new_parent_id: u32) -> (ok: bool)
        requires
            old(self).wf(),
        ensures
            final(self).wf(),
            final(self).next() == old(self).next(),
            ok == (id != new_parent_id && has_f(old(self).forest(), id) && has_f(
                old(self).forest(),
                new_parent_id,
            ) && !has_n(get_f(old(self).forest(), id).unwrap(), new_parent_id)),
            !ok ==> final(self).forest() == old(self).forest(),
            ok ==> final(self).forest() == attach_f(
                remove_f(old(self).forest(), id),
                new_parent_id,
                get_f(old(self).forest(), id).unwrap(),
            ),
    {
        if id == new_parent_id {
            return false;
        }
        if !has_vec(&self.roots, id) {
            return false;
        }
        if !has_vec(&self.roots, new_parent_id) {
            return false;
        }
        let target = get_vec(&self.roots, id);
        if is_descendant(target.unwrap(), new_parent_id) {
            return false;
        }
        let mut roots: Vec<Node> = Vec::new();
        core::mem::swap(&mut roots, &mut self.roots);
        let (roots1, got) = detach_vec(roots, id);
        proof {
            let f0 = old(self).forest();
            let subv = get_f(f0, id).unwrap();
            lemma_get_f(f0, id);
            let (a, b) = lemma_remove_ids_f(f0, id);
            let mid = ids_n(subv);
            lemma_has_ids_f(f0, new_parent_id);
            lemma_has_ids_n(subv, new_parent_id);
            lemma_contains_concat(a + mid, b, new_parent_id);
            lemma_contains_concat(a, mid, new_parent_id);
            lemma_contains_concat(a, b, new_parent_id);
            lemma_has_ids_f(view_nodes(roots1@), new_parent_id);
        }
        let sub = got.unwrap();
        let roots2 = attach_vec(roots1, new_parent_id, sub);
        self.roots = roots2;
        proof {
            let f0 = old(self).forest();
            let subv = get_f(f0, id).unwrap();
            let f1 = remove_f(f0, id);
            lemma_remove_done_ok_f(f0, id);
            lemma_get_f(f0, id);
            lemma_attach_done_ok_f(f1, new_parent_id, subv);
            let (a, b) = lemma_remove_ids_f(f0, id);
            let mid = ids_n(subv);
            let (a2, b2) = lemma_attach_ids_f(f1, new_parent_id, subv);
            lemma_mid_extract(a, mid, b);
            assert(a2 + b2 == a + b);
            lemma_mid_nodup(a2, mid, b2);
            lemma_below3(a, mid, b, old(self).next());
            lemma_below_concat(a, b, old(self).next());
            lemma_below_concat(a2, b2, old(self).next());
            lemma_below3(a2, mid, b2, old(self).next());
        }
        true
    }
}


// ---------------------------------------------------------------------------
// Stated laws
// ---------------------------------------------------------------------------

/// Ids are never reused across the tree's lifetime: in a well-formed
/// forest the id that will be allocated next — and, since the counter
/// only grows, every later one — is carried by no current node, deleted
/// ids stay retired for good.
pub proof fn lemma_fresh_id(t: Tree)
    requires
        t.wf(),
    ensures
        forall|x: u32| t.next() <= x ==> !has_f(t.forest(), x),
{
    assert forall|x: u32| t.next() <= x implies !has_f(t.forest(), x) by {
        lemma_has_ids_f(t.forest(), x);
        if ids_f(t.forest()).contains(x) {
            let k = choose|k: int| 0 <= k < ids_f(t.forest()).len() && ids_f(t.forest())[k] == x;
            assert(ids_f(t.forest())[k] < t.next());
        }
    }
}

/// Every node of this subtree that carries `id` is childless.
pub open spec fn leaf_at_n(n: NodeView, id: u32) -> bool
    decreases n, 1int,
{
    (n.id == id ==> n.children.len() == 0) && leaf_at_f(n.children, id)
}

pub open spec fn leaf_at_f(s: Seq<NodeView>, id: u32) -> bool
    decreases s, 0int,
{
    forall|i: int| 0 <= i < s.len() ==> leaf_at_n(s[i], id)
}

/// A subtree without the id trivially carries it only on leaves.
pub proof fn lemma_leaf_vacuous(n: NodeView, id: u32)
    requires
        !has_n(n, id),
    ensures
        leaf_at_n(n, id),
    decreases n, 1int,
{
    assert forall|i: int| 0 <= i < n.children.len() implies leaf_at_n(n.children[i], id) by {
        assert(!has_f(n.children, id));
        lemma_leaf_vacuous(n.children[i], id);
    }
}

/// In a duplicate-free subtree whose `get` target is childless, every
/// occurrence of the id is childless.
pub proof fn lemma_unique_leaf_n(n: NodeView, id: u32)
    requires
        ids_n(n).no_duplicates(),
        has_n(n, id),
        get_n(n, id).unwrap().children.len() == 0,
    ensures
        leaf_at_n(n, id),
    decreases n, 1int,
{
    lemma_nodup_split(seq![n.id], ids_f(n.children));
    assert(ids_n(n) == seq![n.id] + ids_f(n.children));
    if n.id == id {
        assert(get_n(n, id) == Some(n));
        assert(n.children.len() == 0);
        assert(leaf_at_f(n.children, id));
    } else {
        assert(has_f(n.children, id));
        assert(get_n(n, id) == get_f(n.children, id));
        lemma_unique_leaf_f(n.children, id);
    }
}

pub proof fn lemma_unique_leaf_f(s: Seq<NodeView>, id: u32)
    requires
        ids_f(s).no_duplicates(),
        has_f(s, id),
        get_f(s, id).unwrap().children.len() == 0,
    ensures
        leaf_at_f(s, id),
    decreases s, 0int,
{
    let rest = s.subrange(1, s.len() as int);
    lemma_has_f_cons(s, id);
    lemma_nodup_split(ids_n(s[0]), ids_f(rest));
    assert(ids_f(s) == ids_n(s[0]) + ids_f(rest));
    lemma_has_ids_n(s[0], id);
    lemma_has_ids_f(rest, id);
    if has_n(s[0], id) {
        assert(get_f(s, id) == get_n(s[0], id));
        lemma_unique_leaf_n(s[0], id);
        assert(!ids_f(rest).contains(id)) by {
            let k = choose|k: int| 0 <= k < ids_n(s[0]).len() && ids_n(s[0])[k] == id;
            if ids_f(rest).contains(id) {
                let j = choose|j: int| 0 <= j < ids_f(rest).len() && ids_f(rest)[j] == id;
                assert(ids_n(s[0])[k] != ids_f(rest)[j]);
            }
        }
        assert forall|i: int| 0 <= i < s.len() implies leaf_at_n(s[i], id) by {
            if i > 0 {
                assert(rest[i - 1] == s[i]);
                assert(!has_f(rest, id));
                assert(has_n(rest[i - 1], id) ==> has_f(rest, id));
                lemma_leaf_vacuous(s[i], id);
            }
        }
    } else {
        assert(get_f(s, id) == get_f(rest, id));
        lemma_unique_leaf_f(rest, id);
        assert forall|i: int| 0 <= i < s.len() implies leaf_at_n(s[i], id) by {
            if i == 0 {
                lemma_leaf_vacuous(s[0], id);
            } else {
                assert(rest[i - 1] == s[i]);
            }
        }
    }
}

proof fn lemma_toggle_twice_n(n: NodeView, id: u32)
    requires
        done_ok_n(n),
        leaf_at_n(n, id),
    ensures
        toggle_n(toggle_n(n, id), id) == n,
    decreases n, 1int,
{
    if n.id == id {
        assert(n.children.len() == 0);
        assert(toggle_n(toggle_n(n, id), id) =~= n);
    } else if has_f(n.children, id) {
        let c = n.children;
        let c1 = toggle_f(c, id);
        lemma_toggle_f_pointwise(c, id);
        lemma_toggle_twice_f(c, id);
        lemma_toggle_ids_f(c, id);
        lemma_has_ids_f(c, id);
        lemma_has_ids_f(c1, id);
        assert(has_f(c1, id));
        let t1 = toggle_n(n, id);
        assert(t1.children == c1);
        assert(t1.id == n.id);
        assert(c.len() > 0) by {
            let i = choose|i: int| 0 <= i < c.len() && has_n(c[i], id);
        }
        assert(toggle_n(t1, id) == refresh(NodeView { children: toggle_f(c1, id), ..t1 }));
        assert(toggle_f(c1, id) == c);
        assert(toggle_n(t1, id) =~= n);
    }
}

proof fn lemma_toggle_twice_f(s: Seq<NodeView>, id: u32)
    requires
        done_ok_f(s),
        leaf_at_f(s, id),
    ensures
        toggle_f(toggle_f(s, id), id) == s,
    decreases s, 0int,
{
    lemma_toggle_f_pointwise(s, id);
    lemma_toggle_f_pointwise(toggle_f(s, id), id);
    assert forall|i: int|
        0 <= i < s.len()
        implies toggle_f(toggle_f(s, id), id)[i] == s[i] by {
        assert(done_ok_n(s[i]));
        assert(leaf_at_n(s[i], id));
        lemma_toggle_twice_n(s[i], id);
    }
    assert(toggle_f(toggle_f(s, id), id) =~= s);
}

/// Toggling a childless node twice returns the whole forest — that node
/// and everything else — to exactly its original state.
pub proof fn lemma_toggle_leaf_twice(t: Tree, id: u32)
    requires
        t.wf(),
        has_f(t.forest(), id),
        get_f(t.forest(), id).unwrap().children.len() == 0,
    ensures
        toggle_f(toggle_f(t.forest(), id), id) == t.forest(),
{
    lemma_unique_leaf_f(t.forest(), id);
    lemma_toggle_twice_f(t.forest(), id);
}


// ---------------------------------------------------------------------------
// Rendering
// ---------------------------------------------------------------------------

pub open spec fn digit_char(d: u32) -> char {
    if d == 0 { '0' }
    else if d == 1 { '1' }
    else if d == 2 { '2' }
    else if d == 3 { '3' }
    else if d == 4 { '4' }
    else if d == 5 { '5' }
    else if d == 6 { '6' }
    else if d == 7 { '7' }
    else if d == 8 { '8' }
    else { '9' }
}

/// The decimal digits of `x`, most significant first.
pub open spec fn dec_chars(x: u32) -> Seq<char>
    decreases x,
{
    if x < 10 {
        seq![digit_char(x)]
    } else {
        dec_chars(x / 10).push(digit_char(x % 10))
    }
}

pub open spec fn mark_char(done: bool) -> char {
    if done { 'x' } else { ' ' }
}

/// One node as an indented line `[x] Title (id: N)`, followed by its
/// children one indent level deeper.
pub open spec fn render_n(n: NodeView, ind: Seq<char>) -> Seq<char>
    decreases n, 1int, 0int,
{
    ind + seq!['[', mark_char(n.done), ']', ' '] + n.title + seq![' ', '(', 'i', 'd', ':', ' ']
        + dec_chars(n.id) + seq![')', '\n'] + render_f(n.children, ind + seq![' ', ' '])
}

pub open spec fn render_f(s: Seq<NodeView>, ind: Seq<char>) -> Seq<char>
    decreases s, 0int, 0int,
{
    if s.len() == 0 {
        Seq::empty()
    } else {
        render_n(s[0], ind) + render_f(s.subrange(1, s.len() as int), ind)
    }
}

fn digit_of(d: u32) -> (c: char)
    requires
        d < 10,
    ensures
        c == digit_char(d),
{
    if d == 0 { '0' }
    else if d == 1 { '1' }
    else if d == 2 { '2' }
    else if d == 3 { '3' }
    else if d == 4 { '4' }
    else if d == 5 { '5' }
    else if d == 6 { '6' }
    else if d == 7 { '7' }
    else if d == 8 { '8' }
    else { '9' }
}

fn push_dec(out: &mut Vec<char>, x: u32)
    ensures
        final(out)@ == old(out)@ + dec_chars(x),
    decreases x,
{
    if x < 10 {
        let c = digit_of(x);
        out.push(c);
        proof {
            assert(out@ =~= old(out)@ + dec_chars(x));
        }
    } else {
        push_dec(out, x / 10);
        let c = digit_of(x % 10);
        out.push(c);
        proof {
            assert(out@ =~= old(out)@ + dec_chars(x));
        }
    }
}

/// Append the characters of `src` to `out`.
fn push_chars(out: &mut Vec<char>, src: &Vec<char>)
    ensures
        final(out)@ == old(out)@ + src@,
{
    let mut k: usize = 0;
    while k < src.len()
        invariant
            k <= src.len(),
            out@ == old(out)@ + src@.take(k as int),
        decreases src.len() - k,
    {
        let c = src[k];
        out.push(c);
        proof {
            assert(src@.take(k as int + 1) =~= src@.take(k as int).push(src@[k as int]));
            assert(out@ =~= old(out)@ + src@.take(k as int + 1));
        }
        k = k + 1;
    }
    proof {
        assert(src@.take(src@.len() as int) =~= src@);
    }
}

/// Append the line for this node, then its children, one indent level
/// deeper.
fn fmt_node(out: &mut Vec<char>, n: &Node, ind: &Vec<char>)
    ensures
        final(out)@ == old(out)@ + render_n(view_node(*n), ind@),
    decreases *n, 1int, 0int,
{
    let ghost pre = old(out)@;
    let ghost nv = view_node(*n);
    push_chars(out, ind);
    out.push('[');
    if n.done {
        out.push('x');
    } else {
        out.push(' ');
    }
    out.push(']');
    out.push(' ');
    proof {
        assert(out@ =~= pre + ind@ + seq!['[', mark_char(nv.done), ']', ' ']);
    }
    let ghost head = out@;
    let t = n.title.as_str();
    let tlen = t.unicode_len();
    let mut k: usize = 0;
    while k < tlen
        invariant
            k <= tlen,
            tlen == t@.len(),
            out@ == head + t@.take(k as int),
        decreases tlen - k,
    {
        let c = t.get_char(k);
        out.push(c);
        proof {
            assert(t@.take(k as int + 1) =~= t@.take(k as int).push(t@[k as int]));
            assert(out@ =~= head + t@.take(k as int + 1));
        }
        k = k + 1;
    }
    proof {
        assert(t@.take(t@.len() as int) =~= t@);
    }
    out.push(' ');
    out.push('(');
    out.push('i');
    out.push('d');
    out.push(':');
    out.push(' ');
    push_dec(out, n.id);
    out.push(')');
    out.push('\n');
    proof {
        assert(out@ =~= pre + ind@ + seq!['[', mark_char(nv.done), ']', ' '] + nv.title
            + seq![' ', '(', 'i', 'd', ':', ' '] + dec_chars(nv.id) + seq![')', '\n']);
    }
    let ghost line = out@;
    let mut ind2: Vec<char> = Vec::new();
    push_chars(&mut ind2, ind);
    ind2.push(' ');
    ind2.push(' ');
    proof {
        assert(ind2@ =~= ind@ + seq![' ', ' ']);
    }
    fmt_nodes(out, &n.children, 0, &ind2);
    proof {
        assert(view_nodes(n.children@).skip(0) =~= view_nodes(n.children@));
        assert(out@ == line + render_f(nv.children, ind@ + seq![' ', ' ']));
        assert(out@ =~= pre + render_n(nv, ind@));
    }
}

/// Append the trees of `v` from position `i` on.
fn fmt_nodes(out: &mut Vec<char>, v: &Vec<Node>, i: usize, ind: &Vec<char>)
    requires
        i <= v.len(),
    ensures
        final(out)@ == old(out)@ + render_f(view_nodes(v@).skip(i as int), ind@),
    decreases v@, 0int, v@.len() - i,
{
    proof {
        lemma_view_nodes(v@);
    }
    if i < v.len() {
        let ghost sv = view_nodes(v@);
        let ghost tail = sv.skip(i as int);
        fmt_node(out, &v[i], ind);
        fmt_nodes(out, v, i + 1, ind);
        proof {
            assert(tail.len() > 0);
            assert(tail[0] == sv[i as int]);
            assert(tail.subrange(1, tail.len() as int) =~= sv.skip(i as int + 1));
            assert(render_f(tail, ind@) == render_n(sv[i as int], ind@)
                + render_f(sv.skip(i as int + 1), ind@));
            assert(out@ =~= old(out)@ + render_f(tail, ind@));
        }
    } else {
        proof {
            assert(view_nodes(v@).skip(i as int) =~= Seq::<NodeView>::empty());
            assert(out@ =~= old(out)@ + render_f(view_nodes(v@).skip(i as int), ind@));
        }
    }
}

/// Relies on Iterator::collect for String: the collected string holds
/// exactly the characters of the vector, in order.
#[verifier::external_body]
fn chars_to_string(v: &Vec<char>) -> (r: String)
    ensures
        r@ == v@,
{
    v.iter().collect()
}

impl Tree {
    /// The whole forest as indented text: each node on its own line as
    /// `[x] Title (id: N)`, the marker blank unless done, children one
    /// level deeper than their parent, siblings and roots in insertion
    /// order.
    pub fn fmt_pretty(&self) -> (r: String)
        ensures
            r@ == render_f(self.forest(), Seq::<char>::empty()),
    {
        let mut out: Vec<char> = Vec::new();
        let ind: Vec<char> = Vec::new();
        fmt_nodes(&mut out, &self.roots, 0, &ind);
        proof {
            assert(self.forest().skip(0) =~= self.forest());
            assert(out@ =~= render_f(self.forest(), Seq::<char>::empty()));
        }
        chars_to_string(&out)
    }
}


impl Tree {
    /// The id the next created node will receive; the counter never
    /// decreases and ids below it are never handed out again.
    pub fn next_id(&self) -> (r: u32)
        ensures
            r == self.next(),
    {
        self.next_id
    }
}


} // verus!
