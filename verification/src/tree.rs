//! Trees.

pub mod binary_tree;
