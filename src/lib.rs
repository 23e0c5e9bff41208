//! Tree-level operations on a git object store: computing which paths changed
//! between two trees, and rebuilding trees from sparse sets of path edits;
//! with the decisions around commit signing and hooks.

pub mod bytes;
pub mod hooks;
pub mod laws;
pub mod ops;
pub mod sign;
pub mod store;
pub mod tree;
