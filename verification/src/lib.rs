//! A height-balanced Merkle search tree: a key/value store whose nodes carry
//! a digest of their subtree.

pub mod alike;
pub mod digest;
pub mod dirty;
pub mod encode;
pub mod hash;
pub mod insert;
pub mod label;
pub mod laws;
pub mod node;
pub mod order;
pub mod rotate;
pub mod search;
pub mod size;
pub mod tree;

pub use node::Node;
pub use tree::IAVL;
