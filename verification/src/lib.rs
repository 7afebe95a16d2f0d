//! An unbalanced binary search tree over `i32` keys.
//!
//! Equal keys are kept: a key that is already present is stored again, in the
//! right subtree of its equal. The tree offers insertion, deletion of one
//! occurrence, membership search, the three depth-first traversals and a
//! textual picture of its structure.
//!
//! Every operation is specified against [`shape::Shape`], the mathematical
//! tree that a [`tree::BinarySearchTree`] stands for.

pub mod history;
pub mod laws;
pub mod sequence;
pub mod shape;
pub mod text;
pub mod tree;

