//! The failures that the algebra reports.

use vstd::prelude::*;

verus! {

/// Why an operation was refused.
#[derive(Clone, Copy, Debug, PartialEq, Eq, Structural)]
pub enum AlgebraError {
    /// Operands that belong to different moduli were combined.
    ConfigMismatch,
    /// An inverse was needed of a value that shares a factor with the modulus.
    NonInvertible,
    /// A division by the zero polynomial, or by a zero denominator.
    DivisionByZero,
    /// A polynomial has more coefficients than the reference string has points.
    DegreeExceeded,
    /// A division that must be exact left a remainder.
    RemainderMismatch,
    /// The curve parameters have a zero discriminant.
    SingularCurve,
    /// Coordinates that do not satisfy the curve equation.
    NotOnCurve,
}

} // verus!
