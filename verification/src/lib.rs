//! An in-memory forest of identity-addressed instances.
//!
//! The forest owns every node, keyed by a stable identifier. Each node
//! carries an opaque payload together with its structural metadata: the
//! identifier, an optional parent identifier, and an ordered list of child
//! identifiers. The forest keeps parent and child references consistent
//! across insertion, subtree removal, transplanting a subtree between
//! forests, and descendant traversal.

pub mod model;
pub mod tree;

pub use tree::Descendants;
pub use tree::RbxTree;
pub use tree::RootedRbxInstance;
