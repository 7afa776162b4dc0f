//! Two ordered in-memory containers of unique `u64` keys: a red-black tree
//! and an AVL tree. Both expose the same dictionary-style API (insert,
//! delete, search, traversal, structural queries) and differ only in their
//! balancing discipline.
//!
//! The node graph is built from owning `left`/`right` edges; the parent back
//! reference is a logical key (keys are unique), re-targeted whenever a
//! structural edge moves.
//!
//! Keys are fixed at `u64`. A verified order-generic key is not available
//! here (contracts cannot rest on a derived or hand-written `Ord`), so the
//! string-keyed and signed-integer instantiations of the surrounding
//! command loop stay outside the verified core.

pub mod avl_tree;
pub mod avl_tree_type;
pub mod red_black_tree;
pub mod tree_type;
