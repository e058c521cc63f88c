//! An AA-tree: a self-balancing binary search tree that keeps itself
//! shallow with an integer "level" per node and two local rewrites,
//! `skew` and `split`, applied on the way back up after every insertion.

pub mod node;
pub mod tree;

pub use tree::Tree;
