//! The failure taxonomy of a traversal.

use vstd::prelude::*;

verus! {

/// Why an operation failed.
///
/// `Io` covers any filesystem read, enumeration or metadata failure;
/// `InvalidName` a path segment that cannot be decoded into text;
/// `SerializationFailure` a completed tree that cannot be encoded.
#[derive(Clone, Copy, PartialEq, Eq, Structural, Debug)]
pub enum TraversalErrorKind {
    Io,
    InvalidName,
    SerializationFailure,
}

/// A failure, carrying its kind and the underlying cause's message.
#[derive(Debug, Clone, PartialEq)]
pub struct TraversalError {
    pub kind: TraversalErrorKind,
    pub message: String,
}

} // verus!
