//! Decimal renderings of integers, as `to_string` and `format!` write them.

use crate::text::string_from_chars;
use vstd::prelude::*;

verus! {

/// The ASCII character of decimal digit `d`.
pub open spec fn digit_char(d: int) -> char {
    (48 + d) as char
}

/// The decimal digits of `n`, without leading zeros (`0` for zero).
pub open spec fn decimal(n: nat) -> Seq<char>
    decreases n,
{
    if n < 10 {
        seq![digit_char(n as int)]
    } else {
        decimal(n / 10).push(digit_char((n % 10) as int))
    }
}

/// The decimal rendering of `i`, with a `-` in front when negative.
pub open spec fn signed_decimal(i: int) -> Seq<char> {
    if i < 0 {
        seq!['-'] + decimal((-i) as nat)
    } else {
        decimal(i as nat)
    }
}

/// Appends the decimal digits of `n` to `out`.
fn push_decimal(out: &mut Vec<char>, n: u64)
    ensures
        final(out)@ == old(out)@ + decimal(n as nat),
    decreases n,
{
    if n >= 10 {
        push_decimal(out, n / 10);
    }
    let d: u8 = (n % 10) as u8;
    let c: char = (48u8 + d) as char;
    out.push(c);
    proof {
        if n < 10 {
            assert(decimal(n as nat) == seq![digit_char(n as int)]);
        }
    }
    assert(final(out)@ =~= old(out)@ + decimal(n as nat));
}

/// The decimal rendering of an `i32` (what `i32::to_string` returns).
pub fn i32_to_string(i: i32) -> (s: String)
    ensures
        s@ == signed_decimal(i as int),
{
    let mut out: Vec<char> = Vec::new();
    if i < 0 {
        out.push('-');
        let m: i64 = -(i as i64);
        push_decimal(&mut out, m as u64);
    } else {
        push_decimal(&mut out, i as u64);
    }
    string_from_chars(out.as_slice())
}

/// The decimal rendering of a `u8`.
pub fn u8_to_string(b: u8) -> (s: String)
    ensures
        s@ == decimal(b as nat),
{
    let mut out: Vec<char> = Vec::new();
    push_decimal(&mut out, b as u64);
    string_from_chars(out.as_slice())
}

} // verus!
