//! Rendering of numbers as text.

use vstd::prelude::*;

verus! {

/// The character of a decimal or hexadecimal digit, in lower case.
pub open spec fn digit_char(d: int) -> char {
    if d < 10 {
        ('0' as int + d) as char
    } else {
        ('a' as int + (d - 10)) as char
    }
}

/// Decimal digits of a natural number, without leading zeros.
pub open spec fn decimal_nat(n: nat) -> Seq<char>
    decreases n,
{
    if n < 10 {
        seq![digit_char(n as int)]
    } else {
        decimal_nat(n / 10).push(digit_char((n % 10) as int))
    }
}

/// Decimal notation of an integer.
pub open spec fn decimal(n: int) -> Seq<char> {
    if n < 0 {
        seq!['-'] + decimal_nat((-n) as nat)
    } else {
        decimal_nat(n as nat)
    }
}

/// The last `width` hexadecimal digits of a natural number.
pub open spec fn hex_digits(n: nat, width: nat) -> Seq<char>
    decreases width,
{
    if width == 0 {
        Seq::empty()
    } else {
        hex_digits(n / 16, (width - 1) as nat).push(digit_char((n % 16) as int))
    }
}

/// std's `Display` of `usize`: decimal digits.
#[verifier::external_body]
pub(crate) fn decimal_usize(n: usize) -> (r: String)
    ensures
        r@ == decimal(n as int),
{
    format!("{}", n)
}

/// std's `Display` of `i32`: decimal notation with a leading minus sign where
/// the number is negative.
#[verifier::external_body]
pub(crate) fn decimal_i32(n: i32) -> (r: String)
    ensures
        r@ == decimal(n as int),
{
    format!("{}", n)
}

} // verus!
