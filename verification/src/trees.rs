//! Balanced search trees over an arena of node records.

pub mod laws;
pub mod node;
pub mod sbt;
pub mod shape;
pub mod store;
pub mod treap;
pub mod tree;

pub use node::{Idx, Node};
pub use sbt::SizeBalanced;
pub use store::Store;
pub use treap::{Treap, TreapStore};
pub use tree::Tree;
