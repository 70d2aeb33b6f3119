//! A verified content-tree builder: an in-memory tree that mirrors a
//! directory subtree, each node annotated with its type, byte size and
//! aggregate descendant count, together with a JSON codec for the tree.

pub mod codec;
pub mod errors;
pub mod tree;

pub use errors::TraversalError;
pub use errors::TraversalErrorKind;
pub use tree::ContentTreeNode;
pub use tree::NodeType;
