//! Errors of the index.
use vstd::prelude::*;

verus! {

/// Why an operation of the index refused its input.
#[derive(Debug, Clone, Copy, PartialEq, Eq, Structural)]
pub enum LshError {
    /// `remove` was called on an empty table.
    EmptyCollection,
    /// `remove` was called with a vector that the table does not hold.
    NotFound,
    /// A vector's length differs from the table's number of dimensions.
    DimensionMismatch,
    /// A tuning sample holds no vector.
    EmptySample,
    /// The vectors of a tuning sample do not all have the same length.
    InconsistentSample,
}

} // verus!
