//! An exact-arithmetic linear classifier toolkit: a binary perceptron learner
//! and a one-vs-rest multi-class ensemble built on top of it.
//!
//! Feature values are rational numbers, stored as integer numerators over a
//! single positive denominator shared by a whole matrix (a raw byte image has
//! denominator 1).  Keeping the arithmetic exact lets every operation state
//! precisely what it returns: normalization produces `(v - lo) / (hi - lo)`
//! with no rounding, and training applies the mistake-driven update rule
//! verbatim.
use vstd::prelude::*;

pub mod matrix;
pub mod multiclass;
pub mod perceptron;
pub mod rat;

verus! {

/// Largest value (numerator) and largest denominator a feature matrix entry
/// may carry.  Raw 8-bit images (values 0..=255, denominator 1) fit with
/// plenty of room.
pub const VAL_LIMIT: i64 = 65536;

/// Largest number of rows and largest number of columns a matrix may have.
pub const DIM_LIMIT: usize = 1048576;

/// Largest magnitude a weight numerator may reach; training budgets must
/// keep every weight inside this bound so that no addition overflows.
pub const WEIGHT_LIMIT: i64 = 1099511627776;

/// Largest denominator a weight vector may carry.
pub const WDEN_LIMIT: i64 = 4294967296;

/// The failures every operation of the toolkit can surface.  Degenerate
/// inputs (a constant matrix, an empty validation set) are not errors: they
/// resolve to defined fallback results instead.
#[derive(Clone, Copy, Debug, PartialEq, Eq, Structural)]
pub enum ClassifierError {
    /// A row's width differs from the configured feature count, or a label
    /// vector's length differs from the matrix's row count.
    DimensionMismatch,
    /// An ensemble was configured with duplicate class identifiers, or a
    /// matrix was built from values outside the supported range.
    ConfigurationError,
}

} // verus!
