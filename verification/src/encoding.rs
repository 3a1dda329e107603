//! The canonical byte encoding of an evaluation: its decimal text in ASCII.
//!
//! A value is written without leading zeros, with a leading `-` when it is
//! negative. Distinct values have distinct encodings.

use vstd::prelude::*;

verus! {

/// The ASCII byte of the decimal digit `d`.
pub open spec fn digit_byte(d: nat) -> u8
    recommends
        d < 10,
{
    (48 + d) as u8
}

/// The decimal digits of `n` in ASCII, most significant first, without
/// leading zeros (a single `0` for zero).
pub open spec fn decimal_digits(n: nat) -> Seq<u8>
    decreases n,
{
    if n < 10 {
        seq![digit_byte(n)]
    } else {
        decimal_digits(n / 10).push(digit_byte(n % 10))
    }
}

/// The decimal text of `v` in ASCII: a minus sign if `v` is negative, then
/// the digits of its magnitude.
pub open spec fn decimal_text(v: int) -> Seq<u8> {
    if v < 0 {
        seq![45u8] + decimal_digits((-v) as nat)
    } else {
        decimal_digits(v as nat)
    }
}

/// The number that a sequence of ASCII digits writes.
pub open spec fn digits_value(s: Seq<u8>) -> int
    decreases s.len(),
{
    if s.len() == 0 {
        0
    } else {
        digits_value(s.drop_last()) * 10 + (s.last() - 48)
    }
}

/// The decimal text of `value` as bytes.
pub fn encode_decimal(value: i128) -> (bytes: Vec<u8>)
    ensures
        bytes@ == decimal_text(value as int),
{
    let negative = value < 0;
    let magnitude: u128 = if negative {
        (0 - (value + 1)) as u128 + 1
    } else {
        value as u128
    };
    let mut reversed: Vec<u8> = Vec::new();
    let mut rest: u128 = magnitude;
    assert(decimal_digits(rest as nat) + reversed@.reverse() =~= decimal_digits(rest as nat));
    while rest >= 10
        invariant
            decimal_digits(magnitude as nat) == decimal_digits(rest as nat) + reversed@.reverse(),
        decreases rest,
    {
        let digit = (rest % 10) as u8;
        let ghost before = reversed@;
        reversed.push(48 + digit);
        assert(reversed@.reverse() =~= seq![digit_byte((rest % 10) as nat)] + before.reverse());
        assert(decimal_digits((rest / 10) as nat).push(digit_byte((rest % 10) as nat))
            + before.reverse() =~= decimal_digits((rest / 10) as nat) + (seq![
            digit_byte((rest % 10) as nat),
        ] + before.reverse()));
        rest = rest / 10;
    }
    let ghost before = reversed@;
    reversed.push(48 + rest as u8);
    assert(reversed@.reverse() =~= decimal_digits(rest as nat) + before.reverse());
    let ghost sign: Seq<u8> = if negative {
        seq![45u8]
    } else {
        Seq::empty()
    };
    let mut bytes: Vec<u8> = Vec::new();
    if negative {
        bytes.push(45);
    }
    let len = reversed.len();
    let mut k: usize = len;
    assert(bytes@ =~= sign + reversed@.reverse().take(0));
    while k > 0
        invariant
            k <= len,
            len == reversed.len(),
            bytes@ == sign + reversed@.reverse().take(len - k),
        decreases k,
    {
        k -= 1;
        bytes.push(reversed[k]);
        assert(bytes@ =~= sign + reversed@.reverse().take(len - k));
    }
    assert(reversed@.reverse().take(len as int) =~= reversed@.reverse());
    assert(sign + decimal_digits(magnitude as nat) =~= decimal_text(value as int));
    bytes
}

/// The digits of a number are at least one, and the first is an ASCII digit.
pub proof fn decimal_digits_shape(n: nat)
    ensures
        decimal_digits(n).len() >= 1,
        48 <= decimal_digits(n)[0] <= 57,
    decreases n,
{
    if n >= 10 {
        decimal_digits_shape(n / 10);
    }
}

/// Reading the digits of a number gives the number back.
pub proof fn digits_value_of_decimal_digits(n: nat)
    ensures
        digits_value(decimal_digits(n)) == n,
    decreases n,
{
    if n < 10 {
        let s = decimal_digits(n);
        assert(s.drop_last().len() == 0);
        assert(digits_value(s.drop_last()) == 0);
    } else {
        digits_value_of_decimal_digits(n / 10);
        let s = decimal_digits(n);
        assert(s.drop_last() =~= decimal_digits(n / 10));
    }
}

/// Distinct values have distinct decimal texts.
pub proof fn decimal_text_is_injective(a: int, b: int)
    requires
        decimal_text(a) == decimal_text(b),
    ensures
        a == b,
{
    let ma = (if a < 0 {
        -a
    } else {
        a
    }) as nat;
    let mb = (if b < 0 {
        -b
    } else {
        b
    }) as nat;
    decimal_digits_shape(ma);
    decimal_digits_shape(mb);
    digits_value_of_decimal_digits(ma);
    digits_value_of_decimal_digits(mb);
    if a < 0 && b < 0 {
        let ta = seq![45u8] + decimal_digits(ma);
        let tb = seq![45u8] + decimal_digits(mb);
        assert(ta.skip(1) =~= decimal_digits(ma));
        assert(tb.skip(1) =~= decimal_digits(mb));
    } else if a < 0 {
        assert(decimal_text(a)[0] == 45u8);
    } else if b < 0 {
        assert(decimal_text(b)[0] == 45u8);
    }
}

} // verus!
