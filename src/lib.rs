//! An order-parameterised B-tree of unique `usize` keys, held in memory.
//!
//! Nodes own their children directly, so a child's parent and its index
//! among the parent's children are given by where it is stored.

pub mod search_status;
pub mod node;
mod insert;
mod delete;
pub mod tree;
pub mod traversal;
pub mod model;

pub use node::Node;
pub use search_status::SearchStatus;
pub use tree::{BTree, BTreeError};
