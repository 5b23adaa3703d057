//! An ordered set of integers kept in a B-tree of configurable minimum degree.
//!
//! The tree is rebalanced top-down: insertion splits full nodes on the way down,
//! removal tops up minimal nodes on the way down. Every operation is proved to
//! keep the structural invariants and to act on the set of stored values exactly
//! as the corresponding mathematical set operation.

pub mod node;
pub mod seqs;
pub mod tree;
pub mod laws;
