//! What is written out after rolling: the sum on a line of its own, or each
//! roll followed by a space.

use vstd::prelude::*;
use crate::decimal::{decimal_digits, push_decimal};

verus! {

/// The text that reports a sum: its decimal digits and a line feed.
pub open spec fn sum_line(sum: u64) -> Seq<char> {
    decimal_digits(sum as nat).push('\n')
}

/// The text that reports one roll: its decimal digits and one space.
pub open spec fn roll_token(value: u64) -> Seq<char> {
    decimal_digits(value as nat).push(' ')
}

/// Writes a sum as a line of text.
pub fn format_sum(sum: u64) -> (text: String)
    ensures
        text@ == sum_line(sum),
{
    let mut text = String::new();
    push_decimal(&mut text, sum);
    text.push('\n');
    text
}

/// Writes one roll, with the space that parts it from the next.
pub fn format_roll(value: u64) -> (text: String)
    ensures
        text@ == roll_token(value),
{
    let mut text = String::new();
    push_decimal(&mut text, value);
    text.push(' ');
    text
}

} // verus!
