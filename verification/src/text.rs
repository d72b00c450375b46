//! Decimal numerals, as bencode writes integers and string lengths.

use vstd::prelude::*;

verus! {

/// The ASCII digit `0`.
pub const ZERO: u8 = 48;

/// The ASCII digit `9`.
pub const NINE: u8 = 57;

/// The ASCII minus sign.
pub const MINUS: u8 = 45;

/// The ASCII colon, which ends the length of a byte string.
pub const COLON: u8 = 58;

/// The letter `i`, which starts an integer.
pub const INT_START: u8 = 105;

/// The letter `l`, which starts a list.
pub const LIST_START: u8 = 108;

/// The letter `d`, which starts a dictionary.
pub const DICT_START: u8 = 100;

/// The letter `e`, which ends an integer, a list and a dictionary.
pub const END: u8 = 101;

/// Whether `b` is an ASCII digit.
pub open spec fn is_digit(b: u8) -> bool {
    ZERO <= b <= NINE
}

/// The ASCII digit of a number below ten.
pub open spec fn digit_of(d: nat) -> u8 {
    (ZERO + d) as u8
}

/// The decimal numeral of `n`, without leading zeros.
pub open spec fn decimal(n: nat) -> Seq<u8>
    decreases n,
{
    if n < 10 {
        seq![digit_of(n)]
    } else {
        decimal(n / 10).push(digit_of(n % 10))
    }
}

/// The decimal numeral of an integer: a minus sign before the numeral of
/// its magnitude where it is negative.
pub open spec fn int_text(i: int) -> Seq<u8> {
    if i < 0 {
        seq![MINUS] + decimal((-i) as nat)
    } else {
        decimal(i as nat)
    }
}

/// The number that a string of digits writes in base ten (0 for the empty
/// string).
pub open spec fn digits_value(s: Seq<u8>) -> nat
    decreases s.len(),
{
    if s.len() == 0 {
        0
    } else {
        (digits_value(s.drop_last()) * 10 + (s.last() - ZERO)) as nat
    }
}

/// Whether every byte of `s` is an ASCII digit.
pub open spec fn all_digits(s: Seq<u8>) -> bool {
    forall|i: int| 0 <= i < s.len() ==> is_digit(#[trigger] s[i])
}

/// Appends the decimal numeral of `n` to `out`.
pub fn push_decimal(out: &mut Vec<u8>, n: u64)
    ensures
        final(out)@ == old(out)@ + decimal(n as nat),
    decreases n,
{
    if n >= 10 {
        push_decimal(out, n / 10);
    }
    let d: u8 = (n % 10) as u8;
    out.push(ZERO + d);
    assert(final(out)@ =~= old(out)@ + decimal(n as nat));
}

/// Appends the decimal numeral of the integer `i` to `out`.
pub fn push_int(out: &mut Vec<u8>, i: i64)
    ensures
        final(out)@ == old(out)@ + int_text(i as int),
{
    if i < 0 {
        out.push(MINUS);
        let magnitude: u64 = (-(i as i128)) as u64;
        push_decimal(out, magnitude);
        assert(final(out)@ =~= old(out)@ + int_text(i as int));
    } else {
        push_decimal(out, i as u64);
    }
}

/// A decimal numeral is a non-empty string of digits that starts with a
/// zero only where it writes zero, and it writes the number it was made of.
pub proof fn lemma_decimal(n: nat)
    ensures
        decimal(n).len() >= 1,
        all_digits(decimal(n)),
        (decimal(n)[0] == ZERO) == (n == 0),
        n == 0 ==> decimal(n).len() == 1,
        digits_value(decimal(n)) == n,
    decreases n,
{
    if n < 10 {
        assert(decimal(n).drop_last() =~= Seq::<u8>::empty());
        assert(digits_value(decimal(n).drop_last()) == 0);
    } else {
        lemma_decimal(n / 10);
        assert(decimal(n).drop_last() =~= decimal(n / 10));
    }
}

/// A non-empty string of digits without a leading zero is the decimal
/// numeral of the number that it writes.
pub proof fn lemma_digits_are_decimal(digits: Seq<u8>)
    requires
        digits.len() >= 1,
        all_digits(digits),
        digits[0] != ZERO || digits.len() == 1,
    ensures
        decimal(digits_value(digits)) == digits,
        digits[0] != ZERO ==> digits_value(digits) >= 1,
    decreases digits.len(),
{
    let front = digits.drop_last();
    if digits.len() == 1 {
        assert(front =~= Seq::<u8>::empty());
        assert(digits_value(front) == 0);
        assert(decimal(digits_value(digits)) =~= digits);
    } else {
        lemma_digits_are_decimal(front);
        let v = digits_value(front);
        let d = (digits.last() - ZERO) as nat;
        assert(digits_value(digits) == v * 10 + d);
        assert((v * 10 + d) / 10 == v);
        assert((v * 10 + d) % 10 == d);
        assert(decimal(digits_value(digits)) =~= digits);
    }
}

} // verus!
