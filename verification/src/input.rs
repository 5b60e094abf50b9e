//! Reading the number of a carriage.

use crate::enumerate::DIGIT_COUNT;
use vstd::prelude::*;
use vstd::string::StrSliceExecFns;

verus! {

/// The value of a decimal digit, or nothing for any other character.
pub open spec fn digit_value(c: char) -> Option<i128> {
    if c == '0' {
        Some(0i128)
    } else if c == '1' {
        Some(1i128)
    } else if c == '2' {
        Some(2i128)
    } else if c == '3' {
        Some(3i128)
    } else if c == '4' {
        Some(4i128)
    } else if c == '5' {
        Some(5i128)
    } else if c == '6' {
        Some(6i128)
    } else if c == '7' {
        Some(7i128)
    } else if c == '8' {
        Some(8i128)
    } else if c == '9' {
        Some(9i128)
    } else {
        None
    }
}

/// A carriage number: four characters, each a decimal digit.
pub open spec fn is_car_number(text: Seq<char>) -> bool {
    &&& text.len() == DIGIT_COUNT
    &&& forall|i: int| 0 <= i < text.len() ==> digit_value(#[trigger] text[i]) is Some
}

/// The value of a decimal digit, or nothing for any other character.
fn read_digit(c: char) -> (value: Option<i128>)
    ensures
        value == digit_value(c),
{
    if c == '0' {
        Some(0)
    } else if c == '1' {
        Some(1)
    } else if c == '2' {
        Some(2)
    } else if c == '3' {
        Some(3)
    } else if c == '4' {
        Some(4)
    } else if c == '5' {
        Some(5)
    } else if c == '6' {
        Some(6)
    } else if c == '7' {
        Some(7)
    } else if c == '8' {
        Some(8)
    } else if c == '9' {
        Some(9)
    } else {
        None
    }
}

/// Reads the four digits of a carriage number, in their order.
///
/// A text of another length, or with a character that is no decimal digit,
/// is no carriage number and gives nothing.
pub fn car_digits(text: &str) -> (digits: Option<Vec<i128>>)
    ensures
        digits is Some <==> is_car_number(text@),
        digits matches Some(read) ==> {
            &&& read@.len() == DIGIT_COUNT
            &&& forall|i: int| 0 <= i < read@.len() ==> digit_value(text@[i]) == Some(read@[i])
            &&& forall|i: int| 0 <= i < read@.len() ==> 0 <= #[trigger] read@[i] <= 9
        },
{
    if text.unicode_len() != DIGIT_COUNT {
        return None;
    }
    let mut read: Vec<i128> = Vec::new();
    let mut next: usize = 0;
    while next < DIGIT_COUNT
        invariant
            next <= DIGIT_COUNT,
            text@.len() == DIGIT_COUNT,
            read@.len() == next,
            forall|i: int| 0 <= i < next ==> digit_value(text@[i]) == Some(read@[i]),
            forall|i: int| 0 <= i < next ==> 0 <= #[trigger] read@[i] <= 9,
        decreases DIGIT_COUNT - next,
    {
        match read_digit(text.get_char(next)) {
            Some(value) => {
                read.push(value);
            },
            None => {
                assert(digit_value(text@[next as int]) is None);
                return None;
            },
        }
        next = next + 1;
    }
    Some(read)
}

} // verus!
