//! The ways resolving a path or applying a patch can fail.

use vstd::prelude::*;

verus! {

/// Why a patch could not be applied.
#[derive(Clone, Copy, Debug, PartialEq, Eq, Structural)]
pub enum PatchError {
    /// A pointer string or an array segment is malformed.
    InvalidPathSyntax,
    /// An intermediate or terminal segment does not exist.
    PathNotFound,
    /// A segment implies array or object semantics the node does not have.
    TypeMismatch,
    /// An array index lies beyond the bounds the operation allows.
    IndexOutOfBounds,
    /// A `test` operation found a value other than the one it asserts.
    PatchTestFailed,
}

} // verus!
