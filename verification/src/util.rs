//! Data structures that the game is built on.

pub mod linked_tree;

pub use linked_tree::{LinkedTree, LinkedTreeOperation, NodeView, TreeNode};
