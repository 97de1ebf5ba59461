//! A verified engine for a forest of hierarchical task nodes: creation,
//! completion tracking with upward propagation, subtree deletion, and
//! cycle-safe reparenting.

pub mod tree;
