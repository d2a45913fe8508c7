//! The ways an operation on a sequence can fail.

use vstd::prelude::*;

verus! {

/// The operation needed room that it could not get: a resource refused a
/// request, or the room cannot be counted in a `usize`.
///
/// `returned` is what the operation was given to keep and hands back instead.
#[derive(Debug)]
pub struct AllocationFailed<V> {
    pub returned: V,
}

/// A position at or past the length of the sequence was asked for.
#[derive(Debug, Clone, Copy, PartialEq, Eq, Structural)]
pub struct IndexOutOfBounds {
    /// The number of elements the sequence held.
    pub length: usize,
    /// The position that was asked for.
    pub index: usize,
}

} // verus!
