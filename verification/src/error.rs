//! Why an operator refused its operands.

use vstd::prelude::*;

verus! {

/// The ways in which the evaluation of one candidate can fail. None of them
/// is fatal to a search: a failing candidate is skipped.
#[derive(Clone, Copy, Debug, PartialEq, Eq, Structural)]
pub enum ArithmeticError {
    /// The mathematical result does not fit in `i128`.
    Overflow,
    /// The divisor is zero, or the division leaves a remainder.
    DivisionError,
    /// Zero raised to the power zero.
    UndefinedError,
    /// A shift amount, an exponent or a factorial argument is outside the
    /// supported range.
    RangeError,
}

} // verus!
