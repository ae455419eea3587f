//! Integers written in base ten as ASCII bytes, and the proof that reading
//! them back gives the same integer.

use crate::byte_string::from_bytes::{all_digits, decimal_value, digits_value, is_digit};
use vstd::prelude::*;

verus! {

/// The ASCII digits of a natural number, most significant first, with no
/// leading zero.
pub open spec fn decimal_digits(n: nat) -> Seq<u8>
    decreases n,
{
    if n < 10 {
        seq![(0x30 + n) as u8]
    } else {
        decimal_digits(n / 10).push((0x30 + n % 10) as u8)
    }
}

/// An integer in base ten: a `-` for a negative one, then its digits.
pub open spec fn decimal(v: int) -> Seq<u8> {
    if v < 0 {
        seq![0x2du8] + decimal_digits((-v) as nat)
    } else {
        decimal_digits(v as nat)
    }
}

/// The digits of a number are digits, at least one, and write that number.
pub proof fn lemma_decimal_digits(n: nat)
    ensures
        decimal_digits(n).len() >= 1,
        all_digits(decimal_digits(n)),
        digits_value(decimal_digits(n)) == n,
    decreases n,
{
    if n < 10 {
        let s = decimal_digits(n);
        assert(s.drop_last() =~= Seq::<u8>::empty());
        assert(digits_value(s.drop_last()) == 0);
    } else {
        lemma_decimal_digits(n / 10);
        let s = decimal_digits(n);
        assert(s.drop_last() =~= decimal_digits(n / 10));
        assert forall|i: int| 0 <= i < s.len() implies is_digit(#[trigger] s[i]) by {
            if i < s.len() - 1 {
                assert(s[i] == decimal_digits(n / 10)[i]);
            }
        }
    }
}

/// The digits of a number are ASCII, so they are valid UTF-8.
pub proof fn lemma_digits_are_text(n: nat)
    ensures
        vstd::utf8::valid_utf8(decimal_digits(n)),
{
    lemma_decimal_digits(n);
    lemma_ascii_is_text(decimal_digits(n));
}

/// Bytes below 128 are valid UTF-8.
pub proof fn lemma_ascii_is_text(s: Seq<u8>)
    requires
        forall|i: int| 0 <= i < s.len() ==> #[trigger] s[i] < 0x80,
    ensures
        vstd::utf8::valid_utf8(s),
    decreases s.len(),
{
    if s.len() > 0 {
        let rest = vstd::utf8::pop_first_scalar(s);
        assert(vstd::utf8::is_leading_byte_width_1(s[0]));
        assert(vstd::utf8::valid_first_scalar(s)) by {
            let b = s[0];
            assert(b & 0x7f == b) by (bit_vector)
                requires
                    b < 0x80,
            ;
        }
        assert(rest =~= s.skip(1));
        assert forall|i: int| 0 <= i < rest.len() implies #[trigger] rest[i] < 0x80 by {
            assert(rest[i] == s[i + 1]);
        }
        lemma_ascii_is_text(rest);
    }
}

/// Reading back what `decimal` wrote gives the integer it was written from.
pub proof fn lemma_decimal_round_trip(v: int)
    ensures
        decimal_value(decimal(v)) == Some(v),
{
    if v < 0 {
        let d = decimal_digits((-v) as nat);
        lemma_decimal_digits((-v) as nat);
        let s = decimal(v);
        assert(s.skip(1) =~= d);
    } else {
        lemma_decimal_digits(v as nat);
        let s = decimal(v);
        assert(is_digit(s[0]));
    }
}

/// Appends the digits of a number to a buffer.
pub fn push_digits(buffer: &mut Vec<u8>, n: u128)
    ensures
        final(buffer)@ == old(buffer)@ + decimal_digits(n as nat),
    decreases n,
{
    if n >= 10 {
        push_digits(buffer, n / 10);
    }
    let digit: u8 = (n % 10) as u8;
    buffer.push(0x30 + digit);
    assert(buffer@ =~= old(buffer)@ + decimal_digits(n as nat));
}

/// Appends an integer in base ten to a buffer.
pub fn push_decimal(buffer: &mut Vec<u8>, v: i64)
    ensures
        final(buffer)@ == old(buffer)@ + decimal(v as int),
{
    if v < 0 {
        buffer.push(0x2d);
        let magnitude: u128 = ((-(v + 1)) as u128) + 1;
        push_digits(buffer, magnitude);
        assert(buffer@ =~= old(buffer)@ + decimal(v as int));
    } else {
        push_digits(buffer, v as u128);
    }
}

/// An integer in base ten.
pub fn decimal_bytes(v: i64) -> (r: Vec<u8>)
    ensures
        r@ == decimal(v as int),
{
    let mut out: Vec<u8> = Vec::new();
    push_decimal(&mut out, v);
    out
}

} // verus!
