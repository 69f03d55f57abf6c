//! What an operation of the store can fail with.

use vstd::prelude::*;

verus! {

/// The ways in which an operation of the store fails.
#[derive(Clone, Copy, Debug, PartialEq, Eq, Structural)]
pub enum OramError {
    /// A payload is longer than a block.
    PayloadTooLarge,
    /// The storage refused a write or could not be opened.
    StorageFailure,
    /// A block read from storage is not the one that was written there.
    IntegrityMismatch,
    /// The storage does not hold a block that it should hold.
    NotFound,
}

} // verus!
