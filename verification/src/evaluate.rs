//! Applying one operator, and evaluating one candidate expression.

use crate::error::ArithmeticError;
use crate::math::div_spec;
use crate::math::factorial;
use crate::math::factorial_spec;
use crate::math::fits;
use crate::math::lemma_truncated_division;
use crate::math::magnitude;
use crate::math::mod_spec;
use crate::math::pow_spec;
use crate::math::safe_shift;
use crate::math::shift_spec;
use crate::math::train_game_div;
use crate::math::train_game_mod;
use crate::math::train_game_pow;
use crate::math::truncated_quotient;
use crate::math::truncated_remainder;
use crate::math::MAX_FACTORIAL_ARGUMENT;
use crate::operator::Operator;
use vstd::prelude::*;

verus! {

/// A sum, difference or product as an `i128`, or `Overflow` where it does
/// not fit.
pub open spec fn checked(exact: int) -> Result<i128, ArithmeticError> {
    if fits(exact) {
        Ok(exact as i128)
    } else {
        Err(ArithmeticError::Overflow)
    }
}

/// The result of `op` on the operands `num1` and `num2`.
pub open spec fn apply(num1: i128, num2: i128, op: Operator) -> Result<i128, ArithmeticError> {
    match op {
        Operator::Add => checked(num1 + num2),
        Operator::Subtract => checked(num1 - num2),
        Operator::Multiply => checked(num1 * num2),
        Operator::Divide => div_spec(num1, num2),
        Operator::Modulo => mod_spec(num1, num2),
        Operator::ShiftLeft => shift_spec(num1, num2, op),
        Operator::ShiftRight => shift_spec(num1, num2, op),
        Operator::BitOr => Ok(num1 | num2),
        Operator::BitAnd => Ok(num1 & num2),
        Operator::BitXor => Ok(num1 ^ num2),
        Operator::Power => pow_spec(num1, num2),
    }
}

/// Applies `op` to the operands `num1` and `num2`.
///
/// No operator wraps or panics: each either gives the exact result or says
/// why there is none.
pub fn operate(num1: i128, num2: i128, op: Operator) -> (r: Result<i128, ArithmeticError>)
    ensures
        r == apply(num1, num2, op),
{
    match op {
        Operator::Add => match num1.checked_add(num2) {
            Some(sum) => Ok(sum),
            None => Err(ArithmeticError::Overflow),
        },
        Operator::Subtract => match num1.checked_sub(num2) {
            Some(difference) => Ok(difference),
            None => Err(ArithmeticError::Overflow),
        },
        Operator::Multiply => match num1.checked_mul(num2) {
            Some(product) => Ok(product),
            None => Err(ArithmeticError::Overflow),
        },
        Operator::Divide => train_game_div(num1, num2),
        Operator::Modulo => train_game_mod(num1, num2),
        Operator::ShiftLeft => safe_shift(num1, num2, op),
        Operator::ShiftRight => safe_shift(num1, num2, op),
        Operator::BitAnd => Ok(num1 & num2),
        Operator::BitOr => Ok(num1 | num2),
        Operator::BitXor => Ok(num1 ^ num2),
        Operator::Power => train_game_pow(num1, num2),
    }
}

/// Dividing and then multiplying by the same divisor gives the dividend
/// back, wherever the divisor is not zero and divides the dividend exactly.
/// The one such pair that cannot be divided is `i128::MIN` by `-1`, whose
/// quotient does not fit.
pub proof fn lemma_divide_then_multiply(dividend: i128, divisor: i128)
    requires
        divisor != 0,
        truncated_remainder(dividend as int, divisor as int) == 0,
        !(dividend == i128::MIN && divisor == -1),
    ensures
        apply(dividend, divisor, Operator::Divide) matches Ok(quotient) && apply(
            quotient,
            divisor,
            Operator::Multiply,
        ) == Ok::<i128, ArithmeticError>(dividend),
{
    let a = dividend as int;
    let b = divisor as int;
    let q = truncated_quotient(a, b);
    lemma_truncated_division(a, b);
    assert(magnitude(q) * magnitude(b) == magnitude(a)) by (nonlinear_arith)
        requires
            q * b == a,
    ;
    assert(magnitude(q) <= magnitude(a) && (magnitude(q) == magnitude(a) ==> magnitude(b) == 1
        || a == 0)) by (nonlinear_arith)
        requires
            magnitude(q) * magnitude(b) == magnitude(a),
            magnitude(b) >= 1,
            magnitude(q) >= 0,
    ;
    assert(fits(q));
}

/// `value`, or its factorial from `cache` where `flag` is set.
pub open spec fn marked(flag: bool, value: i128, cache: Seq<i128>) -> Result<
    i128,
    ArithmeticError,
> {
    if flag {
        factorial_spec(value, cache)
    } else {
        Ok(value)
    }
}

/// One link of the chain: the next operand, with its factorial where
/// `operand_flag` is set, is combined with what was reached so far, and the
/// factorial of the outcome is taken where `result_flag` is set. The first
/// step that fails decides the error.
pub open spec fn link(
    reached: i128,
    op: Operator,
    operand_flag: bool,
    operand: i128,
    result_flag: bool,
    cache: Seq<i128>,
) -> Result<i128, ArithmeticError> {
    match marked(operand_flag, operand, cache) {
        Err(e) => Err(e),
        Ok(right) => match apply(reached, right, op) {
            Err(e) => Err(e),
            Ok(outcome) => marked(result_flag, outcome, cache),
        },
    }
}

/// The value of the expression `((d0 op0 d1) op1 d2) op2 d3`, where `pos`
/// marks which of six places carry a factorial: the first operand, the
/// second, the first intermediate result, the third operand, the second
/// intermediate result and the fourth operand.
pub open spec fn evaluate(
    digits: Seq<i128>,
    ops: Seq<Operator>,
    pos: Seq<bool>,
    cache: Seq<i128>,
) -> Result<i128, ArithmeticError> {
    match marked(pos[0], digits[0], cache) {
        Err(e) => Err(e),
        Ok(first) => match link(first, ops[0], pos[1], digits[1], pos[2], cache) {
            Err(e) => Err(e),
            Ok(second) => match link(second, ops[1], pos[3], digits[2], pos[4], cache) {
                Err(e) => Err(e),
                Ok(third) => link(third, ops[2], pos[5], digits[3], false, cache),
            },
        },
    }
}

/// `value`, or its factorial from `cache` where `flag` is set.
fn with_factorial(flag: bool, value: i128, cache: &Vec<i128>) -> (r: Result<
    i128,
    ArithmeticError,
>)
    requires
        cache@.len() > MAX_FACTORIAL_ARGUMENT,
    ensures
        r == marked(flag, value, cache@),
{
    if flag {
        factorial(value, cache)
    } else {
        Ok(value)
    }
}

/// Evaluates the expression `((d0 op0 d1) op1 d2) op2 d3` from left to
/// right, taking a factorial from `cache` at each place that `pos` marks.
///
/// The first step that fails ends the evaluation with its error. Only the
/// first four digits, three operators and six marks are read.
pub fn calculate(digits: &Vec<i128>, ops: &Vec<Operator>, pos: &Vec<bool>, cache: &Vec<i128>) -> (r:
    Result<i128, ArithmeticError>)
    requires
        digits@.len() >= 4,
        ops@.len() >= 3,
        pos@.len() >= 6,
        cache@.len() > MAX_FACTORIAL_ARGUMENT,
    ensures
        r == evaluate(digits@, ops@, pos@, cache@),
{
    let num1: i128 = digits[0];
    let num2: i128 = digits[1];
    let num3: i128 = digits[2];
    let num4: i128 = digits[3];

    let operand1: i128 = match with_factorial(pos[0], num1, cache) {
        Ok(value) => value,
        Err(e) => {
            return Err(e);
        },
    };
    let operand2: i128 = match with_factorial(pos[1], num2, cache) {
        Ok(value) => value,
        Err(e) => {
            return Err(e);
        },
    };
    let result: i128 = match operate(operand1, operand2, ops[0]) {
        Ok(value) => value,
        Err(e) => {
            return Err(e);
        },
    };
    let result: i128 = match with_factorial(pos[2], result, cache) {
        Ok(value) => value,
        Err(e) => {
            return Err(e);
        },
    };
    let operand3: i128 = match with_factorial(pos[3], num3, cache) {
        Ok(value) => value,
        Err(e) => {
            return Err(e);
        },
    };
    let result: i128 = match operate(result, operand3, ops[1]) {
        Ok(value) => value,
        Err(e) => {
            return Err(e);
        },
    };
    let result: i128 = match with_factorial(pos[4], result, cache) {
        Ok(value) => value,
        Err(e) => {
            return Err(e);
        },
    };
    let operand4: i128 = match with_factorial(pos[5], num4, cache) {
        Ok(value) => value,
        Err(e) => {
            return Err(e);
        },
    };
    operate(result, operand4, ops[2])
}

} // verus!
