//! How much of an input to show: reading a count of lines or bytes.

use vstd::prelude::*;
use crate::text::{chars_of, is_number, number_value, parse_number};

verus! {

/// The digits of an unsigned number: the text without the plus sign that may
/// stand in front of it.
pub open spec fn unsigned_digits(text: Seq<char>) -> Seq<char> {
    if text.len() > 0 && text[0] == '+' {
        text.skip(1)
    } else {
        text
    }
}

/// The positive number that a text denotes: decimal digits, with or without
/// a plus sign in front, of a value from one up to the largest machine word.
pub open spec fn positive_int_of(text: Seq<char>) -> Option<nat> {
    let digits = unsigned_digits(text);
    if is_number(digits) && 1 <= number_value(digits) <= usize::MAX {
        Some(number_value(digits))
    } else {
        None
    }
}

/// Reads a count that must be a positive whole number. Any other text is
/// handed back as the error, unchanged.
pub fn parse_positive_int(val: &str) -> (res: Result<usize, String>)
    ensures
        match res {
            Ok(n) => positive_int_of(val@) == Some(n as nat),
            Err(text) => positive_int_of(val@) is None && text@ == val@,
        },
{
    let chars = chars_of(val);
    let from: usize = if chars.len() > 0 && chars[0] == '+' {
        1
    } else {
        0
    };
    let digits = vstd::slice::slice_subrange(chars.as_slice(), from, chars.len());
    assert(digits@ =~= unsigned_digits(val@));
    match parse_number(digits) {
        Some(n) => {
            if n > 0 {
                Ok(n)
            } else {
                Err(val.to_owned())
            }
        },
        None => Err(val.to_owned()),
    }
}

} // verus!
