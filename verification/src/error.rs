//! Error kinds reported by the library's fallible operations.

use vstd::prelude::*;

verus! {

/// Every failure a public operation can report. Each operation either fully
/// succeeds or reports exactly one of these kinds; no partial results.
#[derive(Clone, Copy, Debug, PartialEq, Eq, Structural)]
pub enum SimError {
    /// A parameter was rejected before any computation: a sample count of
    /// zero, an empty or inverted range, or a negative noise scale.
    InvalidParameter,
    /// A paired-sequence operation was given sequences of unequal or zero
    /// length.
    LengthMismatch,
    /// An observed mean absolute difference fell outside the computed range
    /// of the expected-difference curve, so the inversion is undefined.
    OutOfDomain,
    /// Quadrature subtraction of known noise components exceeded the total:
    /// the radicand would be negative.
    NegativeRadicand,
}

impl SimError {
    /// A short human-readable description of the error kind.
    pub fn describe(&self) -> &'static str {
        match self {
            SimError::InvalidParameter => "invalid parameter",
            SimError::LengthMismatch => "sequences of unequal or zero length",
            SimError::OutOfDomain => "observation outside the curve's range",
            SimError::NegativeRadicand => "negative radicand in quadrature subtraction",
        }
    }
}

} // verus!
