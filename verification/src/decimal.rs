//! Unsigned decimal numerals: what a digit string means, how one is read into
//! a `u64`, and how a `u64` is written back.

use vstd::prelude::*;

verus! {

/// Why a piece of text is not an unsigned 64-bit decimal numeral.
#[derive(Clone, Copy, Debug, PartialEq, Eq, Structural)]
pub enum NumberError {
    /// The text is empty.
    Empty,
    /// After an optional leading `+`, the text has no digit, or holds a
    /// character that is not a decimal digit.
    InvalidDigit,
    /// The digits that the text starts with stand for more than `u64::MAX`.
    Overflow,
}

impl NumberError {
    /// What `message` says of each failure.
    pub open spec fn message_text(self) -> Seq<char> {
        match self {
            NumberError::Empty => "cannot parse integer from empty string"@,
            NumberError::InvalidDigit => "invalid digit found in string"@,
            NumberError::Overflow => "number too large to fit in target type"@,
        }
    }

    /// The failure in words.
    pub fn message(&self) -> (text: String)
        ensures
            text@ == self.message_text(),
    {
        match self {
            NumberError::Empty => "cannot parse integer from empty string".to_owned(),
            NumberError::InvalidDigit => "invalid digit found in string".to_owned(),
            NumberError::Overflow => "number too large to fit in target type".to_owned(),
        }
    }
}

/// Whether `c` is one of the ten ASCII decimal digits.
pub open spec fn is_digit(c: char) -> bool {
    '0' <= c <= '9'
}

/// The number that a decimal digit stands for.
pub open spec fn digit_value(c: char) -> nat
    recommends
        is_digit(c),
{
    (c as u32 - '0' as u32) as nat
}

/// The decimal digit that stands for `d`.
pub open spec fn digit_char(d: nat) -> char
    recommends
        d < 10,
{
    (d + '0' as u32) as char
}

/// Whether every character of `s` is a decimal digit.
pub open spec fn all_digits(s: Seq<char>) -> bool {
    forall|i: int| 0 <= i < s.len() ==> is_digit(#[trigger] s[i])
}

/// The value of a digit string read in base ten, most significant digit
/// first. The empty string has value zero.
pub open spec fn decimal_value(s: Seq<char>) -> nat
    decreases s.len(),
{
    if s.len() == 0 {
        0
    } else {
        decimal_value(s.drop_last()) * 10 + digit_value(s.last())
    }
}

/// The shortest digit string whose value is `n`: no leading zero, except for
/// zero itself, which is written `0`.
pub open spec fn decimal_digits(n: nat) -> Seq<char>
    decreases n,
{
    if n < 10 {
        seq![digit_char(n)]
    } else {
        decimal_digits(n / 10).push(digit_char(n % 10))
    }
}

/// The digits of a numeral: the text without its optional leading `+`.
pub open spec fn numeral_body(s: Seq<char>) -> Seq<char> {
    if s.len() > 0 && s[0] == '+' {
        s.skip(1)
    } else {
        s
    }
}

/// Whether `s` starts with digits that already stand for more than
/// `u64::MAX`, whatever may follow them.
pub open spec fn starts_too_large(s: Seq<char>) -> bool {
    exists|k: int|
        0 <= k <= s.len() && all_digits(#[trigger] s.take(k)) && decimal_value(s.take(k))
            > u64::MAX
}

/// Reading `s` as an unsigned 64-bit decimal numeral: an optional `+`, then
/// one or more decimal digits whose value fits in a `u64`. The text is read
/// from the left, so digits that are too large are reported even where a
/// character that is no digit stands behind them.
pub open spec fn parse_unsigned(s: Seq<char>) -> Result<u64, NumberError> {
    let body = numeral_body(s);
    if s.len() == 0 {
        Err(NumberError::Empty)
    } else if body.len() == 0 {
        Err(NumberError::InvalidDigit)
    } else if starts_too_large(body) {
        Err(NumberError::Overflow)
    } else if !all_digits(body) {
        Err(NumberError::InvalidDigit)
    } else {
        Ok(decimal_value(body) as u64)
    }
}

/// Tells whether `c` is a decimal digit, and which one.
pub fn digit_of(c: char) -> (d: Option<u8>)
    ensures
        is_digit(c) <==> d is Some,
        d matches Some(v) ==> v as nat == digit_value(c) && v <= 9,
{
    if '0' <= c && c <= '9' {
        Some((c as u32 - '0' as u32) as u8)
    } else {
        None
    }
}

/// Appending one digit to a digit string multiplies its value by ten and adds
/// the digit.
pub proof fn lemma_value_push(s: Seq<char>, c: char)
    ensures
        decimal_value(s.push(c)) == decimal_value(s) * 10 + digit_value(c),
{
    assert(s.push(c).drop_last() =~= s);
}

/// The digits written for `n` are digits, and there is at least one.
pub proof fn lemma_digits_are_digits(n: nat)
    ensures
        decimal_digits(n).len() >= 1,
        all_digits(decimal_digits(n)),
    decreases n,
{
    if n >= 10 {
        lemma_digits_are_digits(n / 10);
    }
}

/// Reading back the digits written for `n` gives `n`.
pub proof fn lemma_value_of_digits(n: nat)
    ensures
        decimal_value(decimal_digits(n)) == n,
    decreases n,
{
    if n < 10 {
        lemma_value_push(Seq::empty(), digit_char(n));
        assert(decimal_digits(n) =~= Seq::<char>::empty().push(digit_char(n)));
    } else {
        lemma_value_of_digits(n / 10);
        lemma_value_push(decimal_digits(n / 10), digit_char(n % 10));
    }
}

/// A digit string stands for at least as much as any shorter string that it
/// starts with.
pub proof fn lemma_value_grows(s: Seq<char>, shorter: int, longer: int)
    requires
        0 <= shorter <= longer <= s.len(),
    ensures
        decimal_value(s.take(shorter)) <= decimal_value(s.take(longer)),
    decreases longer - shorter,
{
    if shorter < longer {
        lemma_value_grows(s, shorter, longer - 1);
        assert(s.take(longer).drop_last() =~= s.take(longer - 1));
    }
}

/// Every `u64` is read back from its own digits.
pub proof fn lemma_parse_written(n: u64)
    ensures
        parse_unsigned(decimal_digits(n as nat)) == Ok::<u64, NumberError>(n),
{
    lemma_digits_are_digits(n as nat);
    lemma_value_of_digits(n as nat);
    let digits = decimal_digits(n as nat);
    assert(is_digit(digits[0]));
    assert forall|k: int| 0 <= k <= digits.len() implies decimal_value(#[trigger] digits.take(k))
        <= u64::MAX by {
        lemma_value_grows(digits, k, digits.len() as int);
        assert(digits.take(digits.len() as int) =~= digits);
    }
}

/// Reads `chars` as an unsigned 64-bit decimal numeral.
pub fn read_unsigned(chars: &[char]) -> (r: Result<u64, NumberError>)
    ensures
        r == parse_unsigned(chars@),
{
    let len = chars.len();
    if len == 0 {
        return Err(NumberError::Empty);
    }
    let start: usize = if chars[0] == '+' { 1 } else { 0 };
    let ghost body = numeral_body(chars@);
    assert(body =~= chars@.skip(start as int));
    if start == len {
        return Err(NumberError::InvalidDigit);
    }
    let mut value: u64 = 0;
    let mut i: usize = start;
    while i < len
        invariant
            start <= i <= len == chars@.len(),
            start < len,
            body == numeral_body(chars@),
            body == chars@.skip(start as int),
            all_digits(body.take(i - start)),
            value as nat == decimal_value(body.take(i - start)),
        decreases len - i,
    {
        let ghost seen = body.take(i - start);
        let c = chars[i];
        assert(body[i - start] == c);
        assert(body.take(i - start + 1) =~= seen.push(c));
        proof {
            lemma_value_push(seen, c);
        }
        match digit_of(c) {
            None => {
                assert forall|k: int| 0 <= k <= body.len() && all_digits(#[trigger] body.take(k))
                    implies decimal_value(body.take(k)) <= u64::MAX by {
                    if k > i - start {
                        assert(body.take(k)[i - start] == c);
                    } else {
                        lemma_value_grows(body, k, i - start);
                    }
                }
                return Err(NumberError::InvalidDigit);
            },
            Some(d) => {
                if value > (u64::MAX - d as u64) / 10 {
                    return Err(NumberError::Overflow);
                }
                value = value * 10 + d as u64;
            },
        }
        i += 1;
    }
    proof {
        assert(body.take(len - start) =~= body);
        assert forall|k: int| 0 <= k <= body.len() implies decimal_value(#[trigger] body.take(k))
            <= u64::MAX by {
            lemma_value_grows(body, k, body.len() as int);
        }
    }
    Ok(value)
}

/// The character that writes the digit `d`.
fn char_of_digit(d: u8) -> (c: char)
    requires
        d <= 9,
    ensures
        c == digit_char(d as nat),
        is_digit(c),
        digit_value(c) == d,
{
    (d + '0' as u8) as char
}

/// Appends the decimal digits of `n` to `out`.
pub fn push_decimal(out: &mut String, n: u64)
    ensures
        final(out)@ == old(out)@ + decimal_digits(n as nat),
    decreases n,
{
    if n >= 10 {
        push_decimal(out, n / 10);
    }
    out.push(char_of_digit((n % 10) as u8));
}

} // verus!
