//! Decimal numerals: what the text of a number is, in terms of natural
//! numbers, and digit strings that grow to any length.
//!
//! A digit string is held with its least significant digit first, so that it
//! grows at the end. `numeral_of` reads it from the other side, as it is
//! printed.

use vstd::prelude::*;
use vstd::arithmetic::power::{pow, lemma_pow0, lemma_pow_positive};
use vstd::arithmetic::div_mod::lemma_div_denominator;

verus! {

/// The character of a decimal digit.
pub open spec fn digit_char(d: nat) -> char {
    if d == 0 {
        '0'
    } else if d == 1 {
        '1'
    } else if d == 2 {
        '2'
    } else if d == 3 {
        '3'
    } else if d == 4 {
        '4'
    } else if d == 5 {
        '5'
    } else if d == 6 {
        '6'
    } else if d == 7 {
        '7'
    } else if d == 8 {
        '8'
    } else {
        '9'
    }
}

/// The decimal numeral of a natural number: at least one digit, none of them
/// a leading zero.
pub open spec fn decimal(n: nat) -> Seq<char>
    decreases n,
{
    if n < 10 {
        seq![digit_char(n)]
    } else {
        decimal(n / 10).push(digit_char(n % 10))
    }
}

/// The last `width` decimal digits of a natural number, with leading zeros.
pub open spec fn padded(n: nat, width: nat) -> Seq<char>
    decreases width,
{
    if width == 0 {
        Seq::empty()
    } else {
        padded(n / 10, (width - 1) as nat).push(digit_char(n % 10))
    }
}

/// Ten to the power `e`.
pub open spec fn pow10(e: nat) -> nat {
    pow(10, e) as nat
}

/// The numeral of `n / 10^precision` with exactly `precision` digits behind
/// the point, and no point where there are none.
pub open spec fn fixed_point(n: nat, precision: nat) -> Seq<char> {
    if precision == 0 {
        decimal(n)
    } else {
        decimal(n / pow10(precision)) + seq!['.'] + padded(n, precision)
    }
}

/// The number that a string of digits stands for, least significant first.
pub open spec fn digits_value(digits: Seq<u8>) -> nat
    decreases digits.len(),
{
    if digits.len() == 0 {
        0
    } else {
        digits[0] as nat + 10 * digits_value(digits.drop_first())
    }
}

/// The digits as they are printed: most significant first.
pub open spec fn numeral_of(digits: Seq<u8>) -> Seq<char>
    decreases digits.len(),
{
    if digits.len() == 0 {
        Seq::empty()
    } else {
        numeral_of(digits.drop_first()).push(digit_char(digits[0] as nat))
    }
}

/// Every element is a decimal digit.
pub open spec fn all_digits(digits: Seq<u8>) -> bool {
    forall|i: int| 0 <= i < digits.len() ==> #[trigger] digits[i] < 10
}

/// A digit string without leading zero: it is not empty, and its most
/// significant digit is zero only where it is the only one.
pub open spec fn canonical(digits: Seq<u8>) -> bool {
    all_digits(digits) && digits.len() >= 1 && (digits.len() == 1 || digits.last() != 0)
}

pub proof fn lemma_pow10(e: nat)
    ensures
        pow10(e) > 0,
        pow10(e) == pow(10, e),
        pow10(0) == 1,
        pow10(e + 1) == 10 * pow10(e),
{
    lemma_pow_positive(10, e);
    lemma_pow0(10);
    reveal(pow);
}

/// A digit appended at the end counts with the power of ten of its place.
pub proof fn lemma_digits_value_push(digits: Seq<u8>, d: u8)
    ensures
        digits_value(digits.push(d)) == digits_value(digits) + d * pow10(digits.len()),
    decreases digits.len(),
{
    lemma_pow10(digits.len());
    if digits.len() == 0 {
        assert(digits.push(d).drop_first() =~= Seq::<u8>::empty());
        assert(digits_value(Seq::<u8>::empty()) == 0);
    } else {
        let rest = digits.drop_first();
        lemma_digits_value_push(rest, d);
        lemma_pow10(rest.len());
        assert(digits.push(d).drop_first() =~= rest.push(d));
        assert(digits.push(d)[0] == digits[0]);
        assert(10 * (d * pow10(rest.len())) == d * pow10(digits.len())) by (nonlinear_arith)
            requires
                pow10(digits.len()) == 10 * pow10(rest.len()),
        ;
    }
}

/// A string of digits stands for a number below ten to its length, and a
/// string whose last digit is not zero for a positive number.
pub proof fn lemma_digits_value_bounds(digits: Seq<u8>)
    requires
        all_digits(digits),
    ensures
        digits_value(digits) < pow10(digits.len()),
        digits.len() >= 1 && digits.last() != 0 ==> digits_value(digits) > 0,
    decreases digits.len(),
{
    lemma_pow10(digits.len());
    if digits.len() > 0 {
        let rest = digits.drop_first();
        assert(all_digits(rest)) by {
            assert forall|i: int| 0 <= i < rest.len() implies #[trigger] rest[i] < 10 by {
                assert(rest[i] == digits[i + 1]);
            }
        }
        lemma_digits_value_bounds(rest);
        lemma_pow10(rest.len());
        assert(digits[0] < 10);
        if rest.len() >= 1 {
            assert(rest.last() == digits.last());
        }
    } else {
        assert(digits_value(digits) == 0);
    }
}

/// A digit string without leading zero, read as it is printed, is the decimal
/// numeral of its value.
pub proof fn lemma_numeral_is_decimal(digits: Seq<u8>)
    requires
        canonical(digits),
    ensures
        numeral_of(digits) == decimal(digits_value(digits)),
    decreases digits.len(),
{
    let rest = digits.drop_first();
    assert(digits[0] < 10);
    if rest.len() == 0 {
        assert(digits_value(rest) == 0);
        assert(numeral_of(rest) =~= Seq::<char>::empty());
        assert(numeral_of(digits) =~= seq![digit_char(digits[0] as nat)]);
    } else {
        assert(all_digits(rest)) by {
            assert forall|i: int| 0 <= i < rest.len() implies #[trigger] rest[i] < 10 by {
                assert(rest[i] == digits[i + 1]);
            }
        }
        assert(rest.last() == digits.last());
        lemma_digits_value_bounds(rest);
        lemma_numeral_is_decimal(rest);
        let n = digits_value(digits);
        assert(n == digits[0] + 10 * digits_value(rest));
        assert(n / 10 == digits_value(rest));
        assert(n % 10 == digits[0]);
    }
}

/// The first `width` digits of a string, read as they are printed, are the
/// last `width` digits of its value; the rest of the string stands for the
/// value without them.
pub proof fn lemma_numeral_is_padded(digits: Seq<u8>, width: nat)
    requires
        all_digits(digits),
        width <= digits.len(),
    ensures
        numeral_of(digits.take(width as int)) == padded(digits_value(digits), width),
        digits_value(digits.skip(width as int)) == digits_value(digits) / pow10(width),
    decreases width,
{
    lemma_pow10(0);
    if width == 0 {
        assert(digits.take(0) =~= Seq::<u8>::empty());
        assert(digits.skip(0) =~= digits);
    } else {
        let rest = digits.drop_first();
        assert(all_digits(rest)) by {
            assert forall|i: int| 0 <= i < rest.len() implies #[trigger] rest[i] < 10 by {
                assert(rest[i] == digits[i + 1]);
            }
        }
        lemma_numeral_is_padded(rest, (width - 1) as nat);
        let n = digits_value(digits);
        assert(digits[0] < 10);
        assert(n / 10 == digits_value(rest));
        assert(n % 10 == digits[0]);
        assert(digits.take(width as int).drop_first() =~= rest.take(width - 1));
        assert(digits.take(width as int)[0] == digits[0]);
        assert(digits.skip(width as int) =~= rest.skip(width - 1));
        lemma_pow10((width - 1) as nat);
        lemma_div_denominator(n as int, 10, pow10((width - 1) as nat) as int);
    }
}

} // verus!
