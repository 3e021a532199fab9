//! Numbers as text.

use vstd::prelude::*;

verus! {

/// The character for a digit below 16: `0` to `9`, then `a` to `f`.
pub open spec fn digit_char(d: int) -> char {
    if d < 10 {
        (48 + d) as u8 as char
    } else {
        (87 + d) as u8 as char
    }
}

/// The decimal digits of a number, without leading zeros.
pub open spec fn decimal_digits(n: nat) -> Seq<char>
    decreases n,
{
    if n < 10 {
        seq![digit_char(n as int)]
    } else {
        decimal_digits(n / 10).push(digit_char((n % 10) as int))
    }
}

/// The hexadecimal digits of a number, in lower case, without leading zeros.
pub open spec fn hex_digits(n: nat) -> Seq<char>
    decreases n,
{
    if n < 16 {
        seq![digit_char(n as int)]
    } else {
        hex_digits(n / 16).push(digit_char((n % 16) as int))
    }
}

/// An integer in decimal, with a minus sign in front of a negative one.
pub open spec fn decimal_text(n: int) -> Seq<char> {
    if n < 0 {
        seq!['-'] + decimal_digits((-n) as nat)
    } else {
        decimal_digits(n as nat)
    }
}

/// A number in hexadecimal behind `0x`.
pub open spec fn hex_text(n: nat) -> Seq<char> {
    seq!['0', 'x'] + hex_digits(n)
}

/// Formats an integer with `format!("{}", ..)`. Trusted: the text that std's
/// `Display` for integers gives is the decimal digits, without leading zeros,
/// behind a minus sign where the integer is negative.
#[verifier::external_body]
pub(crate) fn decimal(n: i128) -> (s: String)
    ensures
        s@ == decimal_text(n as int),
{
    format!("{}", n)
}

/// Formats a word with `format!("{:#x}", ..)`. Trusted: the text that std's
/// `LowerHex` for integers gives in its alternate form is `0x` and the
/// hexadecimal digits in lower case, without leading zeros.
#[verifier::external_body]
pub(crate) fn hex(n: u64) -> (s: String)
    ensures
        s@ == hex_text(n as nat),
{
    format!("{:#x}", n)
}

} // verus!
