//! The text of a matching expression, as it is shown to the player.

use crate::operator::Operator;
use vstd::prelude::*;
use vstd::string::StringExecFns;

verus! {

/// The character of a decimal digit.
pub open spec fn digit_char(digit: int) -> char {
    if digit == 0 {
        '0'
    } else if digit == 1 {
        '1'
    } else if digit == 2 {
        '2'
    } else if digit == 3 {
        '3'
    } else if digit == 4 {
        '4'
    } else if digit == 5 {
        '5'
    } else if digit == 6 {
        '6'
    } else if digit == 7 {
        '7'
    } else if digit == 8 {
        '8'
    } else {
        '9'
    }
}

/// The decimal digits of a natural number, without leading zeros.
pub open spec fn decimal_digits(n: nat) -> Seq<char>
    decreases n,
{
    if n < 10 {
        seq![digit_char(n as int)]
    } else {
        decimal_digits(n / 10).push(digit_char((n % 10) as int))
    }
}

/// An integer in decimal, with a minus sign in front where it is negative.
pub open spec fn decimal(n: int) -> Seq<char> {
    if n < 0 {
        seq!['-'] + decimal_digits((-n) as nat)
    } else {
        decimal_digits(n as nat)
    }
}

/// The first `upto` of the digits `low_first`, last digit first.
spec fn high_first(low_first: Seq<u8>, upto: int) -> Seq<char> {
    Seq::new(upto as nat, |k: int| digit_char(low_first[upto - 1 - k] as int))
}

/// The text of one decimal digit.
fn digit_text(digit: u8) -> (text: &'static str)
    requires
        digit < 10,
    ensures
        text@ == seq![digit_char(digit as int)],
{
    proof {
        reveal_strlit("0");
        reveal_strlit("1");
        reveal_strlit("2");
        reveal_strlit("3");
        reveal_strlit("4");
        reveal_strlit("5");
        reveal_strlit("6");
        reveal_strlit("7");
        reveal_strlit("8");
        reveal_strlit("9");
    }
    let text: &'static str = if digit == 0 {
        "0"
    } else if digit == 1 {
        "1"
    } else if digit == 2 {
        "2"
    } else if digit == 3 {
        "3"
    } else if digit == 4 {
        "4"
    } else if digit == 5 {
        "5"
    } else if digit == 6 {
        "6"
    } else if digit == 7 {
        "7"
    } else if digit == 8 {
        "8"
    } else {
        "9"
    };
    assert(text@ =~= seq![digit_char(digit as int)]);
    text
}

/// Writes an integer in decimal.
pub fn decimal_string(n: i128) -> (text: String)
    ensures
        text@ == decimal(n as int),
{
    let size: u128 = if n >= 0 {
        n as u128
    } else {
        (-(n + 1)) as u128 + 1
    };
    let mut text: String = if n >= 0 {
        String::from_str("")
    } else {
        String::from_str("-")
    };
    proof {
        reveal_strlit("");
        reveal_strlit("-");
    }
    let ghost sign: Seq<char> = text@;
    assert(sign =~= (if n < 0 {
        seq!['-']
    } else {
        Seq::<char>::empty()
    }));
    let mut low_first: Vec<u8> = Vec::new();
    let mut rest: u128 = size;
    while rest >= 10
        invariant
            decimal_digits(size as nat) == decimal_digits(rest as nat) + high_first(
                low_first@,
                low_first@.len() as int,
            ),
            forall|k: int| 0 <= k < low_first@.len() ==> low_first@[k] < 10,
        decreases rest,
    {
        let ghost before = low_first@;
        low_first.push((rest % 10) as u8);
        proof {
            let after = low_first@;
            assert(high_first(after, after.len() as int) =~= seq![
                digit_char((rest % 10) as int),
            ] + high_first(before, before.len() as int));
            assert(decimal_digits(rest as nat) == decimal_digits((rest / 10) as nat).push(
                digit_char((rest % 10) as int),
            ));
            assert(decimal_digits(size as nat) =~= decimal_digits((rest / 10) as nat) + high_first(
                after,
                after.len() as int,
            ));
        }
        rest = rest / 10;
    }
    text.append(digit_text(rest as u8));
    let mut left: usize = low_first.len();
    while left > 0
        invariant
            left <= low_first@.len(),
            forall|k: int| 0 <= k < low_first@.len() ==> low_first@[k] < 10,
            text@ + high_first(low_first@, left as int) == sign + decimal_digits(size as nat),
        decreases left,
    {
        proof {
            assert(high_first(low_first@, left as int) =~= seq![
                digit_char(low_first@[left - 1] as int),
            ] + high_first(low_first@, left - 1));
        }
        let ghost before = text@;
        left = left - 1;
        text.append(digit_text(low_first[left]));
        assert(text@ + high_first(low_first@, left as int) =~= before + (seq![
            digit_char(low_first@[left as int] as int),
        ] + high_first(low_first@, left as int)));
    }
    assert(text@ =~= text@ + high_first(low_first@, 0));
    assert(text@ =~= decimal(n as int));
    text
}

/// A digit as it is shown: in decimal, followed by `!` where it is marked.
pub open spec fn operand_text(digit: i128, marked: bool) -> Seq<char> {
    decimal(digit as int) + mark_text(marked)
}

/// The mark of a factorial, or nothing.
pub open spec fn mark_text(marked: bool) -> Seq<char> {
    if marked {
        "!"@
    } else {
        Seq::empty()
    }
}

/// The left-hand side of a shown expression:
/// `((d0 op0 d1) op1 d2) op2 d3`, each digit and each closing bracket
/// followed by `!` where its place is marked.
pub open spec fn left_side_text(digits: Seq<i128>, ops: Seq<Operator>, pos: Seq<bool>) -> Seq<
    char,
> {
    "(("@ + operand_text(digits[0], pos[0]) + " "@ + ops[0].symbol_text() + " "@ + operand_text(
        digits[1],
        pos[1],
    ) + ")"@ + mark_text(pos[2]) + " "@ + ops[1].symbol_text() + " "@ + operand_text(
        digits[2],
        pos[3],
    ) + ")"@ + mark_text(pos[4]) + " "@ + ops[2].symbol_text() + " "@ + operand_text(
        digits[3],
        pos[5],
    )
}

/// A shown expression: its left-hand side, ` = ` and the target.
pub open spec fn expression_text(
    digits: Seq<i128>,
    ops: Seq<Operator>,
    pos: Seq<bool>,
    target: i128,
) -> Seq<char> {
    left_side_text(digits, ops, pos) + " = "@ + decimal(target as int)
}

/// Appends a digit as it is shown.
fn append_operand(text: &mut String, digit: i128, marked: bool)
    ensures
        final(text)@ == old(text)@ + operand_text(digit, marked),
{
    let number: String = decimal_string(digit);
    text.append(number.as_str());
    append_mark(text, marked);
    assert(final(text)@ =~= old(text)@ + operand_text(digit, marked));
}

/// Appends the mark of a factorial, or nothing.
fn append_mark(text: &mut String, marked: bool)
    ensures
        final(text)@ == old(text)@ + mark_text(marked),
{
    if marked {
        text.append("!");
    }
    assert(final(text)@ =~= old(text)@ + mark_text(marked));
}

/// Writes the expression that a candidate stands for, with the target as
/// its right-hand side.
///
/// Only the first four digits, three operators and six marks are read.
pub fn expression(digits: &Vec<i128>, ops: &Vec<Operator>, pos: &Vec<bool>, target: i128) -> (text:
    String)
    requires
        digits@.len() >= 4,
        ops@.len() >= 3,
        pos@.len() >= 6,
    ensures
        text@ == expression_text(digits@, ops@, pos@, target),
{
    let mut text: String = String::from_str("((");
    append_operand(&mut text, digits[0], pos[0]);
    text.append(" ");
    text.append(ops[0].symbol());
    text.append(" ");
    append_operand(&mut text, digits[1], pos[1]);
    text.append(")");
    append_mark(&mut text, pos[2]);
    text.append(" ");
    text.append(ops[1].symbol());
    text.append(" ");
    append_operand(&mut text, digits[2], pos[3]);
    text.append(")");
    append_mark(&mut text, pos[4]);
    text.append(" ");
    text.append(ops[2].symbol());
    text.append(" ");
    append_operand(&mut text, digits[3], pos[5]);
    assert(text@ =~= left_side_text(digits@, ops@, pos@));
    text.append(" = ");
    let number: String = decimal_string(target);
    text.append(number.as_str());
    text
}

/// The closing line of a search: how many of the candidates reach the
/// target, for which carriage and under which rule for the order of its
/// digits.
pub open spec fn summary_text(
    matches: usize,
    examined: usize,
    in_order: bool,
    car: Seq<char>,
    target: i128,
) -> Seq<char> {
    decimal(matches as int) + " of "@ + decimal(examined as int) + " combinations "@ + (if in_order {
        "with digits in order"@
    } else {
        Seq::empty()
    }) + " for car "@ + car + " make "@ + decimal(target as int) + "."@
}

/// Writes the closing line of a search.
pub fn summary(matches: usize, examined: usize, in_order: bool, car: &str, target: i128) -> (text:
    String)
    ensures
        text@ == summary_text(matches, examined, in_order, car@, target),
{
    let mut text: String = decimal_string(matches as i128);
    text.append(" of ");
    let number: String = decimal_string(examined as i128);
    text.append(number.as_str());
    text.append(" combinations ");
    if in_order {
        text.append("with digits in order");
    }
    text.append(" for car ");
    text.append(car);
    text.append(" make ");
    let number: String = decimal_string(target);
    text.append(number.as_str());
    text.append(".");
    assert(text@ =~= summary_text(matches, examined, in_order, car@, target));
    text
}

} // verus!
