//! Tree data structures: a plain binary tree, a binary search tree, an AVL tree
//! and two B-trees, each with its behaviour stated and proved.

pub mod avl;
pub mod b_tree;
pub mod binary;
pub mod binary_traversal;
pub mod bst;
pub mod btree;
pub mod common;

pub use common::error::{Result, TreeError};
pub use common::traits::{OrderedTree, Traversable, Tree, Visitor};
