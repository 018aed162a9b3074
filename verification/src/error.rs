//! The ways in which an operation of this library is refused.

use vstd::prelude::*;

verus! {

/// Why an operation did not produce a result.
#[derive(Clone, Copy, Debug, PartialEq, Eq, Structural)]
pub enum NoiseError {
    /// A distribution was asked for with a bit count that the field does not
    /// hold as an integer, or with a scale that has no inverse in the field.
    ConfigurationError,
    /// A bit vector, or a share of one, has another length than the
    /// distribution's bit count.
    LengthMismatch,
    /// The source of randomness could not deliver.
    RandomnessFailure,
}

} // verus!
