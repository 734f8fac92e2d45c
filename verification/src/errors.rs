//! The typed failures that every operation of the library reports.

use vstd::prelude::*;

verus! {

/// The failures that vector, matrix and determinant operations report.
///
/// Every failure is local and synchronous: an operation either returns its
/// result or reports one of these to its immediate caller; nothing panics
/// and nothing is silently defaulted.
#[derive(Clone, Copy, Debug, PartialEq, Eq, Structural)]
pub enum LinAlgError {
    /// Operand shapes disagree for an elementwise or product operation.
    ShapeMismatch,
    /// A determinant grid was built from a ragged or non-square collection.
    NonSquareDeterminant,
    /// A matrix determinant was requested on a non-square matrix.
    NonSquareMatrix,
    /// Entry arithmetic was attempted on an unsupported tag combination.
    EntryTypeMismatch,
    /// A range restriction was requested with an empty target interval.
    InvalidRange,
    /// A range restriction was requested on a matrix whose extremes coincide.
    DegenerateRange,
    /// An element access lay beyond the shape's bounds.
    IndexOutOfRange,
    /// A reduction that needs at least one element was given none.
    EmptyVector,
    /// A scalar division met a zero divisor.
    DivisionByZero,
    /// An exact integer operation left the representable range.
    Overflow,
}

} // verus!
