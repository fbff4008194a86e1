//! Bias-corrected error estimation for noisy model validation.
//!
//! The library works on fixed-point scalars: every signal sample and every
//! noise scale is an `i64` in caller-chosen fixed-point units (the bundled
//! demo and the tests use micro-units, one millionth of a real unit). All
//! arithmetic on those scalars is exact integer arithmetic, so each public
//! operation carries a contract that pins its result down precisely.

use vstd::prelude::*;

pub mod error;
pub mod curve;
pub mod math;
pub mod signal;

verus! {

/// Largest magnitude, in fixed-point units, a signal sample may have.
/// Keeps sums and interpolation products inside 128-bit intermediates.
pub const SAMPLE_LIMIT: i64 = 1_000_000_000_000;

/// Largest noise scale, in fixed-point units, the combined-scale operations
/// accept for one argument. It exceeds the combined scale of any two
/// per-source scales up to three billion units, so a combined scale can be
/// handed back in as a single source.
pub const SIGMA_LIMIT: i64 = 4_300_000_000;

} // verus!
