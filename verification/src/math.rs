//! Guarded arithmetic on `i128`: exact division, truncating remainder,
//! exponentiation, bit shifts and table-driven factorials.

use crate::error::ArithmeticError;
use crate::operator::Operator;
use vstd::arithmetic::div_mod::lemma_fundamental_div_mod;
use vstd::arithmetic::div_mod::lemma_fundamental_div_mod_converse;
use vstd::arithmetic::div_mod::lemma_small_mod;
use vstd::arithmetic::power::lemma0_pow;
use vstd::arithmetic::power::lemma1_pow;
use vstd::arithmetic::power::lemma_pow0;
use vstd::arithmetic::power::lemma_pow_positive;
use vstd::arithmetic::power::pow;
use vstd::prelude::*;

verus! {

/// Whether a mathematical integer can be held in an `i128`.
pub open spec fn fits(v: int) -> bool {
    i128::MIN <= v <= i128::MAX
}

/// The absolute value of an integer.
pub open spec fn magnitude(v: int) -> int {
    if v < 0 {
        -v
    } else {
        v
    }
}

/// The quotient of `a` by `b` rounded towards zero, for `b != 0`.
pub open spec fn truncated_quotient(a: int, b: int) -> int {
    if (a < 0) == (b < 0) {
        magnitude(a) / magnitude(b)
    } else {
        -(magnitude(a) / magnitude(b))
    }
}

/// The remainder that goes with [`truncated_quotient`], for `b != 0`: its
/// sign follows the dividend and its magnitude is below that of the divisor.
pub open spec fn truncated_remainder(a: int, b: int) -> int {
    if a < 0 {
        -(magnitude(a) % magnitude(b))
    } else {
        magnitude(a) % magnitude(b)
    }
}

/// Quotient and remainder rebuild the dividend, and where the remainder is
/// zero the quotient is the exact one.
pub proof fn lemma_truncated_division(a: int, b: int)
    requires
        b != 0,
    ensures
        truncated_quotient(a, b) * b + truncated_remainder(a, b) == a,
        magnitude(truncated_remainder(a, b)) < magnitude(b),
        truncated_remainder(a, b) == 0 ==> truncated_quotient(a, b) * b == a,
{
    let x = magnitude(a);
    let d = magnitude(b);
    let q = x / d;
    let m = x % d;
    lemma_fundamental_div_mod(x, d);
    assert(x == d * q + m);
    assert(0 <= m < d) by (nonlinear_arith)
        requires
            d > 0,
            m == x % d,
    ;
    assert(q * d == d * q) by (nonlinear_arith);
    assert((-q) * d == -(d * q)) by (nonlinear_arith);
    assert(q * (-d) == -(d * q)) by (nonlinear_arith);
    assert((-q) * (-d) == d * q) by (nonlinear_arith);
}

/// What [`train_game_div`] returns.
pub open spec fn div_spec(num1: i128, num2: i128) -> Result<i128, ArithmeticError> {
    if num2 == 0 || truncated_remainder(num1 as int, num2 as int) != 0 {
        Err(ArithmeticError::DivisionError)
    } else if !fits(truncated_quotient(num1 as int, num2 as int)) {
        Err(ArithmeticError::Overflow)
    } else {
        Ok(truncated_quotient(num1 as int, num2 as int) as i128)
    }
}

/// Divides `num1` by `num2` where the division is exact.
///
/// A zero divisor and a division that would leave a remainder are refused
/// with `DivisionError`. The one exact quotient that `i128` cannot hold,
/// `i128::MIN / -1`, is refused with `Overflow`.
pub fn train_game_div(num1: i128, num2: i128) -> (r: Result<i128, ArithmeticError>)
    ensures
        r == div_spec(num1, num2),
        r matches Ok(q) ==> q * num2 == num1,
{
    proof {
        if num2 != 0 {
            lemma_truncated_division(num1 as int, num2 as int);
        }
    }
    if num2 == 0 {
        return Err(ArithmeticError::DivisionError);
    }
    match num1.checked_rem(num2) {
        None => {
            assert(num1 == i128::MIN && num2 == -1);
            assert(truncated_remainder(num1 as int, num2 as int) == 0) by {
                lemma_small_mod(0, 1);
                assert(magnitude(num1 as int) % 1 == 0) by (nonlinear_arith);
            }
            assert(truncated_quotient(num1 as int, num2 as int) == -(i128::MIN as int)) by {
                assert(magnitude(num1 as int) / 1 == magnitude(num1 as int)) by (nonlinear_arith);
            }
            Err(ArithmeticError::Overflow)
        },
        Some(rest) => {
            proof {
                lemma_rem_agrees(num1, num2);
            }
            if rest != 0 {
                Err(ArithmeticError::DivisionError)
            } else {
                match num1.checked_div(num2) {
                    Some(q) => {
                        proof {
                            lemma_div_agrees(num1, num2);
                        }
                        Ok(q)
                    },
                    None => {
                        proof {
                            lemma_div_agrees(num1, num2);
                        }
                        Err(ArithmeticError::Overflow)
                    },
                }
            }
        },
    }
}

/// The remainder that `i128::checked_rem` reports is the truncated one.
proof fn lemma_rem_agrees(num1: i128, num2: i128)
    requires
        num2 != 0,
        !(num1 == i128::MIN && num2 == -1),
    ensures
        num1.checked_rem(num2) == Some(truncated_remainder(num1 as int, num2 as int) as i128),
        fits(truncated_remainder(num1 as int, num2 as int)),
{
    let x = num1 as int;
    let d = num2 as int;
    lemma_truncated_division(x, d);
    assert(x * -1 == -x);
    assert(d * -1 == -d);
    if x == 0 {
        lemma_small_mod(0, magnitude(d) as nat);
    }
    let m = magnitude(x) % magnitude(d);
    assert((m * -1) == -m);
}

/// The quotient that `i128::checked_div` reports is the truncated one, and
/// it is missing exactly where that quotient does not fit.
proof fn lemma_div_agrees(num1: i128, num2: i128)
    requires
        num2 != 0,
    ensures
        fits(truncated_quotient(num1 as int, num2 as int)) ==> num1.checked_div(num2) == Some(
            truncated_quotient(num1 as int, num2 as int) as i128,
        ),
        !fits(truncated_quotient(num1 as int, num2 as int)) ==> num1.checked_div(num2)
            == None::<i128>,
{
    let x = num1 as int;
    let d = num2 as int;
    assert(x * -1 == -x);
    assert(d * -1 == -d);
    let q = magnitude(x) / magnitude(d);
    assert(q * -1 == -q);
    if x == 0 {
        assert(0int / magnitude(d) == 0) by (nonlinear_arith)
            requires
                magnitude(d) > 0,
        ;
    }
}

/// What [`train_game_mod`] returns.
pub open spec fn mod_spec(num1: i128, num2: i128) -> Result<i128, ArithmeticError> {
    if num2 == 0 {
        Err(ArithmeticError::DivisionError)
    } else {
        Ok(truncated_remainder(num1 as int, num2 as int) as i128)
    }
}

/// The remainder of `num1` by `num2`, with the sign of `num1`.
///
/// A zero divisor is refused with `DivisionError`. Every other pair has a
/// remainder, `i128::MIN` by `-1` included, where it is zero.
pub fn train_game_mod(num1: i128, num2: i128) -> (r: Result<i128, ArithmeticError>)
    ensures
        r == mod_spec(num1, num2),
{
    if num2 == 0 {
        return Err(ArithmeticError::DivisionError);
    }
    match num1.checked_rem(num2) {
        Some(rest) => {
            proof {
                lemma_rem_agrees(num1, num2);
            }
            Ok(rest)
        },
        None => {
            assert(num1 == i128::MIN && num2 == -1);
            assert(truncated_remainder(num1 as int, num2 as int) == 0) by {
                assert(magnitude(num1 as int) % 1 == 0) by (nonlinear_arith);
            }
            Ok(0)
        },
    }
}

/// The largest exponent that [`train_game_pow`] accepts.
pub const MAX_EXPONENT: i128 = 4294967295;

/// What [`train_game_pow`] returns.
pub open spec fn pow_spec(num1: i128, num2: i128) -> Result<i128, ArithmeticError> {
    if num1 == 0 && num2 == 0 {
        Err(ArithmeticError::UndefinedError)
    } else if num2 < 0 || num2 > MAX_EXPONENT {
        Err(ArithmeticError::RangeError)
    } else if !fits(pow(num1 as int, num2 as nat)) {
        Err(ArithmeticError::Overflow)
    } else {
        Ok(pow(num1 as int, num2 as nat) as i128)
    }
}

/// The powers of minus one alternate between one and minus one.
proof fn lemma_pow_minus_one(e: nat)
    ensures
        pow(-1, e) == (if e % 2 == 0 {
            1int
        } else {
            -1int
        }),
    decreases e,
{
    reveal(pow);
    if e > 0 {
        lemma_pow_minus_one((e - 1) as nat);
    }
}

/// Past any exponent, the powers of a base of magnitude two or more are at
/// least twice as large in magnitude.
proof fn lemma_pow_doubles(b: int, low: nat, high: nat)
    requires
        magnitude(b) >= 2,
        low < high,
    ensures
        magnitude(pow(b, high)) >= 2 * magnitude(pow(b, low)),
    decreases high,
{
    reveal(pow);
    let below = pow(b, (high - 1) as nat);
    assert(pow(b, high) == b * below);
    assert(magnitude(b * below) >= 2 * magnitude(below)) by (nonlinear_arith)
        requires
            magnitude(b) >= 2,
    ;
    if low < high - 1 {
        lemma_pow_doubles(b, low, (high - 1) as nat);
    }
}

/// Raises `num1` to the power `num2`.
///
/// Zero to the power zero is refused with `UndefinedError`, an exponent
/// that is negative or above [`MAX_EXPONENT`] with `RangeError`, and a power
/// that `i128` cannot hold with `Overflow`.
pub fn train_game_pow(num1: i128, num2: i128) -> (r: Result<i128, ArithmeticError>)
    ensures
        r == pow_spec(num1, num2),
{
    if num1 == 0 && num2 == 0 {
        return Err(ArithmeticError::UndefinedError);
    }
    if num2 < 0 || num2 > MAX_EXPONENT {
        return Err(ArithmeticError::RangeError);
    }
    if num1 == 0 {
        proof {
            lemma0_pow(num2 as nat);
        }
        return Ok(0);
    }
    if num1 == 1 {
        proof {
            lemma1_pow(num2 as nat);
        }
        return Ok(1);
    }
    if num1 == -1 {
        proof {
            lemma_pow_minus_one(num2 as nat);
        }
        return Ok(if num2 % 2 == 0 { 1 } else { -1 });
    }
    let mut power: i128 = 1;
    let mut done: i128 = 0;
    proof {
        reveal(pow);
    }
    while done < num2
        invariant
            0 <= done <= num2 <= MAX_EXPONENT,
            magnitude(num1 as int) >= 2,
            power == pow(num1 as int, done as nat),
        decreases num2 - done,
    {
        proof {
            reveal(pow);
        }
        match power.checked_mul(num1) {
            Some(next) => {
                power = next;
            },
            None => {
                proof {
                    let reached = (done + 1) as nat;
                    assert(pow(num1 as int, reached) == num1 * power) by {
                        reveal(pow);
                    }
                    assert(num1 * power == power * num1) by (nonlinear_arith);
                    if reached < num2 {
                        lemma_pow_doubles(num1 as int, reached, num2 as nat);
                    }
                }
                return Err(ArithmeticError::Overflow);
            },
        }
        done = done + 1;
    }
    Ok(power)
}

/// The largest shift amount that [`safe_shift`] accepts.
pub const MAX_SHIFT: i128 = 128;

/// What [`safe_shift`] returns.
pub open spec fn shift_spec(num1: i128, num2: i128, op: Operator) -> Result<
    i128,
    ArithmeticError,
> {
    if num2 < 0 || num2 > MAX_SHIFT {
        Err(ArithmeticError::RangeError)
    } else if op == Operator::ShiftRight {
        Ok(num1 >> num2)
    } else {
        Ok(num1 << num2)
    }
}

/// Shifting by the full width moves every bit out: to the left nothing is
/// left, to the right only the sign.
pub proof fn lemma_shift_by_width(num1: i128)
    ensures
        num1 << MAX_SHIFT == 0,
        num1 >> MAX_SHIFT == (if num1 < 0 {
            -1i128
        } else {
            0i128
        }),
{
    assert(num1 << 128i128 == 0i128) by (bit_vector);
    assert(num1 >> 128i128 == (if num1 < 0 {
        -1i128
    } else {
        0i128
    })) by (bit_vector);
}

/// Halving the floor of a quotient is the floor of the quotient by twice
/// the divisor.
proof fn lemma_halved_quotient(x: int, d: int)
    requires
        d > 0,
    ensures
        (x / d) / 2 == x / (2 * d),
{
    let q = x / d;
    let r = x % d;
    lemma_fundamental_div_mod(x, d);
    assert(0 <= r < d) by (nonlinear_arith)
        requires
            d > 0,
            r == x % d,
    ;
    let half = q / 2;
    let odd = q % 2;
    assert(x == half * (2 * d) + (odd * d + r)) by (nonlinear_arith)
        requires
            x == d * q + r,
            q == 2 * half + odd,
    ;
    assert(0 <= odd * d + r < 2 * d) by (nonlinear_arith)
        requires
            0 <= odd <= 1,
            0 <= r < d,
    ;
    lemma_fundamental_div_mod_converse(x, 2 * d, half, odd * d + r);
}

/// A shift to the right by `num2` places divides by two to the power
/// `num2` and rounds down.
pub proof fn lemma_shift_right_divides(num1: i128, num2: i128)
    requires
        0 <= num2 <= MAX_SHIFT,
    ensures
        pow(2, num2 as nat) > 0,
        num1 >> num2 == (num1 as int) / pow(2, num2 as nat),
    decreases num2,
{
    lemma_pow_positive(2, num2 as nat);
    if num2 == 0 {
        assert(num1 >> 0i128 == num1) by (bit_vector);
        lemma_pow0(2);
    } else {
        let fewer: i128 = (num2 - 1) as i128;
        let before: i128 = num1 >> fewer;
        lemma_shift_right_divides(num1, fewer);
        assert(pow(2, num2 as nat) == 2 * pow(2, fewer as nat)) by {
            reveal(pow);
        }
        let places: u128 = num2 as u128;
        let fewer_places: u128 = fewer as u128;
        assert(num1 >> places == (num1 >> fewer_places) >> 1u128) by (bit_vector)
            requires
                fewer_places < 128,
                places == fewer_places + 1,
        ;
        assert(before == num1 >> fewer_places);
        assert(num1 >> num2 == before >> 1i128);
        let low: i128 = before & 1;
        assert((before >> 1i128) * 2 + low == before && 0 <= low <= 1) by (bit_vector)
            requires
                low == before & 1,
        ;
        lemma_halved_quotient(num1 as int, pow(2, fewer as nat));
    }
}

/// A shift to the left by `num2` places multiplies by two to the power
/// `num2`, wherever the product fits in `i128`.
pub proof fn lemma_shift_left_multiplies(num1: i128, num2: i128)
    requires
        0 <= num2 <= MAX_SHIFT,
        fits(num1 * pow(2, num2 as nat)),
    ensures
        num1 << num2 == num1 * pow(2, num2 as nat),
    decreases num2,
{
    lemma_pow_positive(2, num2 as nat);
    if num2 == 0 {
        assert(num1 << 0i128 == num1) by (bit_vector);
        lemma_pow0(2);
        assert(num1 * 1 == num1);
    } else {
        let fewer: i128 = (num2 - 1) as i128;
        assert(pow(2, num2 as nat) == 2 * pow(2, fewer as nat)) by {
            reveal(pow);
        }
        lemma_pow_positive(2, fewer as nat);
        let smaller = num1 * pow(2, fewer as nat);
        assert(num1 * pow(2, num2 as nat) == 2 * smaller) by (nonlinear_arith)
            requires
                pow(2, num2 as nat) == 2 * pow(2, fewer as nat),
                smaller == num1 * pow(2, fewer as nat),
        ;
        lemma_shift_left_multiplies(num1, fewer);
        let before: i128 = num1 << fewer;
        let places: u128 = num2 as u128;
        let fewer_places: u128 = fewer as u128;
        assert(num1 << places == (num1 << fewer_places) << 1u128) by (bit_vector)
            requires
                fewer_places < 128,
                places == fewer_places + 1,
        ;
        assert(before == num1 << fewer_places);
        assert(num1 << num2 == before << 1i128);
        assert(before << 1i128 == 2 * before) by (bit_vector)
            requires
                -0x4000_0000_0000_0000_0000_0000_0000_0000 <= before
                    < 0x4000_0000_0000_0000_0000_0000_0000_0000,
        ;
    }
}

/// Shifts the bits of `num1` by `num2` places: to the right, keeping the
/// sign, where `op` is `ShiftRight`, and to the left, dropping what leaves
/// the 128 bits, for any other operator.
///
/// An amount below zero or above [`MAX_SHIFT`] is refused with `RangeError`.
/// In numbers, a shift to the right divides by a power of two and rounds
/// down ([`lemma_shift_right_divides`]), and a shift to the left multiplies
/// by one as long as the product fits ([`lemma_shift_left_multiplies`]).
pub fn safe_shift(num1: i128, num2: i128, op: Operator) -> (r: Result<i128, ArithmeticError>)
    ensures
        r == shift_spec(num1, num2, op),
{
    if num2 < 0 || num2 > MAX_SHIFT {
        return Err(ArithmeticError::RangeError);
    }
    let to_right: bool = op == Operator::ShiftRight;
    if num2 == MAX_SHIFT {
        proof {
            lemma_shift_by_width(num1);
        }
        if !to_right {
            Ok(0)
        } else if num1 < 0 {
            Ok(-1)
        } else {
            Ok(0)
        }
    } else if to_right {
        Ok(num1 >> num2)
    } else {
        Ok(num1 << num2)
    }
}

/// The largest argument whose factorial fits in `i128`.
pub const MAX_FACTORIAL_ARGUMENT: i128 = 33;

/// The factorial of `n`.
pub open spec fn fact(n: nat) -> nat
    decreases n,
{
    if n == 0 {
        1
    } else {
        n * fact((n - 1) as nat)
    }
}

/// A table that holds the factorial of each of its indices, from zero to
/// [`MAX_FACTORIAL_ARGUMENT`].
pub open spec fn is_factorial_table(table: Seq<i128>) -> bool {
    &&& table.len() == MAX_FACTORIAL_ARGUMENT + 1
    &&& forall|i: int| 0 <= i <= MAX_FACTORIAL_ARGUMENT ==> table[i] == fact(i as nat)
}

/// The factorial of [`MAX_FACTORIAL_ARGUMENT`], which fits in `i128`.
pub proof fn lemma_largest_factorial()
    ensures
        fact(33) == 8683317618811886495518194401280000000,
        fits(fact(33) as int),
{
    assert(fact(0) == 1);
    assert(fact(1) == 1);
    assert(fact(2) == 2);
    assert(fact(3) == 6);
    assert(fact(4) == 24);
    assert(fact(5) == 120);
    assert(fact(6) == 720);
    assert(fact(7) == 5040);
    assert(fact(8) == 40320);
    assert(fact(9) == 362880);
    assert(fact(10) == 3628800);
    assert(fact(11) == 39916800);
    assert(fact(12) == 479001600);
    assert(fact(13) == 6227020800);
    assert(fact(14) == 87178291200);
    assert(fact(15) == 1307674368000);
    assert(fact(16) == 20922789888000);
    assert(fact(17) == 355687428096000);
    assert(fact(18) == 6402373705728000);
    assert(fact(19) == 121645100408832000);
    assert(fact(20) == 2432902008176640000);
    assert(fact(21) == 51090942171709440000);
    assert(fact(22) == 1124000727777607680000);
    assert(fact(23) == 25852016738884976640000);
    assert(fact(24) == 620448401733239439360000);
    assert(fact(25) == 15511210043330985984000000);
    assert(fact(26) == 403291461126605635584000000);
    assert(fact(27) == 10888869450418352160768000000);
    assert(fact(28) == 304888344611713860501504000000);
    assert(fact(29) == 8841761993739701954543616000000);
    assert(fact(30) == 265252859812191058636308480000000);
    assert(fact(31) == 8222838654177922817725562880000000);
    assert(fact(32) == 263130836933693530167218012160000000);
    assert(fact(33) == 8683317618811886495518194401280000000);
}

/// Factorials do not decrease.
pub proof fn lemma_fact_increases(low: nat, high: nat)
    requires
        low <= high,
    ensures
        1 <= fact(low) <= fact(high),
    decreases high,
{
    if high == 0 {
    } else if low == high {
        lemma_fact_increases((low - 1) as nat, (high - 1) as nat);
        assert(high * fact((high - 1) as nat) >= 1) by (nonlinear_arith)
            requires
                high >= 1,
                fact((high - 1) as nat) >= 1,
        ;
    } else {
        lemma_fact_increases(low, (high - 1) as nat);
        assert(high * fact((high - 1) as nat) >= fact((high - 1) as nat)) by (nonlinear_arith)
            requires
                high >= 1,
                fact((high - 1) as nat) >= 1,
        ;
    }
}

/// Builds the table of factorials from zero to [`MAX_FACTORIAL_ARGUMENT`],
/// each entry from the one before it.
pub fn factorial_table() -> (table: Vec<i128>)
    ensures
        is_factorial_table(table@),
{
    let mut table: Vec<i128> = Vec::new();
    table.push(1);
    let mut next: i128 = 1;
    while next <= MAX_FACTORIAL_ARGUMENT
        invariant
            1 <= next <= MAX_FACTORIAL_ARGUMENT + 1,
            table@.len() == next,
            forall|i: int| 0 <= i < next ==> table@[i] == fact(i as nat),
        decreases MAX_FACTORIAL_ARGUMENT + 1 - next,
    {
        let before: i128 = table[(next - 1) as usize];
        proof {
            lemma_largest_factorial();
            lemma_fact_increases(next as nat, 33);
            assert(fact(next as nat) == next * fact((next - 1) as nat));
        }
        table.push(next * before);
        next = next + 1;
    }
    table
}

/// What [`factorial`] returns.
pub open spec fn factorial_spec(num1: i128, cache: Seq<i128>) -> Result<i128, ArithmeticError> {
    if num1 < 0 || num1 > MAX_FACTORIAL_ARGUMENT {
        Err(ArithmeticError::RangeError)
    } else {
        Ok(cache[num1 as int])
    }
}

/// Looks the factorial of `num1` up in `cache`.
///
/// An argument below zero or above [`MAX_FACTORIAL_ARGUMENT`] is refused
/// with `RangeError`, whatever the table holds. Any other argument gives the
/// table's entry at that index, which for a table built by
/// [`factorial_table`] is the factorial.
pub fn factorial(num1: i128, cache: &Vec<i128>) -> (r: Result<i128, ArithmeticError>)
    requires
        0 <= num1 <= MAX_FACTORIAL_ARGUMENT ==> num1 < cache@.len(),
    ensures
        r == factorial_spec(num1, cache@),
        is_factorial_table(cache@) && 0 <= num1 <= MAX_FACTORIAL_ARGUMENT ==> r == Ok::<
            i128,
            ArithmeticError,
        >(fact(num1 as nat) as i128),
{
    if num1 > MAX_FACTORIAL_ARGUMENT || num1 < 0 {
        Err(ArithmeticError::RangeError)
    } else {
        Ok(cache[num1 as usize])
    }
}

} // verus!
