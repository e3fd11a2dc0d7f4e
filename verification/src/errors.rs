use vstd::prelude::*;

verus! {

/// Returned when a compile-time field order turns out not to be prime.
#[derive(Clone, Copy, Debug, PartialEq, Eq, Structural)]
pub struct NotPrimeError;

/// Caller errors from finite-field construction and arithmetic.
///
/// Each variant is a distinct local error: none is retried and none is
/// downgraded to a default value.
#[derive(Clone, Copy, Debug, PartialEq, Eq, Structural)]
pub enum FieldError {
    /// The value handed to the constructor is not in `[0, modulus)`.
    OutOfRange,
    /// The modulus handed to the constructor is not a prime number.
    NotPrime,
    /// The two operands belong to fields with different moduli.
    FieldMismatch,
    /// The divisor is the zero element of the field.
    DivisionByZero,
}

/// Caller errors from curve-point construction and addition.
#[derive(Clone, Copy, Debug, PartialEq, Eq, Structural)]
pub enum CurveError {
    /// The coordinates do not satisfy the curve equation.
    NotOnCurve,
    /// The two operands carry different curve parameters.
    CurveMismatch,
}

} // verus!
