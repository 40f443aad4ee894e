use vstd::prelude::*;

verus! {

/// Absolute value of a difference of two `i64` values, which always fits in `i128`.
pub fn abs(v: i128) -> (r: i128)
    requires
        v > i128::MIN,
    ensures
        r >= 0,
        r == v || r == -v,
{
    if v < 0 {
        0 - v
    } else {
        v
    }
}

pub fn is_negative(v: i64) -> (r: bool)
    ensures
        r == (v < 0),
{
    v < 0
}

/// The character of a decimal digit.
pub open spec fn digit_char(d: int) -> char {
    if d == 0 {
        '0'
    } else if d == 1 {
        '1'
    } else if d == 2 {
        '2'
    } else if d == 3 {
        '3'
    } else if d == 4 {
        '4'
    } else if d == 5 {
        '5'
    } else if d == 6 {
        '6'
    } else if d == 7 {
        '7'
    } else if d == 8 {
        '8'
    } else {
        '9'
    }
}

/// The decimal digits of a natural number, most significant first.
pub open spec fn digits(n: nat) -> Seq<char>
    decreases n,
{
    if n < 10 {
        seq![digit_char(n as int)]
    } else {
        digits(n / 10) + seq![digit_char((n % 10) as int)]
    }
}

/// An integer written in decimal, with a leading `-` when negative.
pub open spec fn decimal(v: int) -> Seq<char> {
    if v < 0 {
        seq!['-'] + digits((-v) as nat)
    } else {
        digits(v as nat)
    }
}

/// Relies on `i64`'s `Display` (through `ToString::to_string`): the value in
/// decimal, with a leading `-` when negative.
#[verifier::external_body]
pub(crate) fn int_text(v: i64) -> (r: String)
    ensures
        r@ == decimal(v as int),
{
    v.to_string()
}

} // verus!
