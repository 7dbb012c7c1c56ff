//! The decimal text of a binary64 with a fixed number of digits behind the
//! point.
//!
//! The text is that of the exact value, rounded to the digits asked for, a tie
//! going to the even last digit. No precision of the number is lost on the
//! way: a large number is written out with all its digits.

use vstd::prelude::*;
use vstd::string::StringExecFns;
use vstd::arithmetic::power2::{pow2, lemma_pow2_pos, lemma_pow2_adds, lemma_pow2_strictly_increases};
use crate::binary64::{Binary64, SIGN_BIT, INFINITY_BITS};
use crate::arithmetic::{decode, power_of_two, unit, lemma_powers_of_two};
use crate::rounding::{round_half_even, lemma_round_half_even_scale};
use crate::decimal::{all_digits, canonical, decimal, digit_char, digits_value, fixed_point, numeral_of, padded, pow10, lemma_digits_value_push, lemma_numeral_is_decimal, lemma_numeral_is_padded, lemma_pow10};

verus! {

/// The largest number of digits behind the point that `to_fixed` writes.
pub const MAX_PRECISION: u8 = 20;

/// The text of a finite magnitude, given in units of 2^-1074, with `precision`
/// digits behind the point.
pub open spec fn magnitude_text(magnitude: nat, precision: nat) -> Seq<char> {
    fixed_point(round_half_even(magnitude * pow10(precision), unit()), precision)
}

/// The text of a number with `precision` digits behind the point: `NaN`,
/// `inf`, or the decimal numeral of the rounded value, with a minus sign where
/// the sign bit is set and the number is not a NaN.
pub open spec fn fixed_text(x: Binary64, precision: nat) -> Seq<char> {
    if x.spec_is_nan() {
        "NaN"@
    } else {
        let sign = if x.is_negative() {
            "-"@
        } else {
            Seq::<char>::empty()
        };
        if x.is_infinite() {
            sign + "inf"@
        } else {
            sign + magnitude_text(x.magnitude(), precision)
        }
    }
}

/// One decimal digit as text.
fn digit_text(d: u8) -> (r: &'static str)
    requires
        d < 10,
    ensures
        r@ == seq![digit_char(d as nat)],
{
    proof {
        reveal_strlit("0");
        reveal_strlit("1");
        reveal_strlit("2");
        reveal_strlit("3");
        reveal_strlit("4");
        reveal_strlit("5");
        reveal_strlit("6");
        reveal_strlit("7");
        reveal_strlit("8");
        reveal_strlit("9");
    }
    let r = match d {
        0 => "0",
        1 => "1",
        2 => "2",
        3 => "3",
        4 => "4",
        5 => "5",
        6 => "6",
        7 => "7",
        8 => "8",
        _ => "9",
    };
    assert(r@ =~= seq![digit_char(d as nat)]);
    r
}

/// Ten to the power twenty as a number.
proof fn lemma_pow10_of_twenty()
    ensures
        pow10(20) == 100_000_000_000_000_000_000u128,
{
    lemma_pow10(0);
    lemma_pow10(1);
    lemma_pow10(2);
    lemma_pow10(3);
    lemma_pow10(4);
    assert(pow10(5) == 100_000);
    lemma_pow10(5);
    lemma_pow10(6);
    lemma_pow10(7);
    lemma_pow10(8);
    lemma_pow10(9);
    assert(pow10(10) == 10_000_000_000u64);
    lemma_pow10(10);
    lemma_pow10(11);
    lemma_pow10(12);
    lemma_pow10(13);
    lemma_pow10(14);
    assert(pow10(15) == 1_000_000_000_000_000u64);
    lemma_pow10(15);
    lemma_pow10(16);
    lemma_pow10(17);
    lemma_pow10(18);
    lemma_pow10(19);
}

/// Ten to the power `e`.
fn power_of_ten(e: u8) -> (r: u128)
    requires
        e <= MAX_PRECISION,
    ensures
        r == pow10(e as nat),
        1 <= r <= 100_000_000_000_000_000_000u128,
{
    let mut r: u128 = 1;
    let mut i: u8 = 0;
    proof {
        lemma_pow10(0);
        lemma_pow10_of_twenty();
    }
    while i < e
        invariant
            i <= e <= MAX_PRECISION,
            r == pow10(i as nat),
            1 <= r,
            r * pow10((20 - i) as nat) == 100_000_000_000_000_000_000u128,
        decreases e - i,
    {
        proof {
            lemma_pow10(i as nat);
            lemma_pow10((20 - i - 1) as nat);
            let rest = pow10((20 - i - 1) as nat);
            assert((10 * r) * rest == r * (10 * rest)) by (nonlinear_arith);
            assert(10 * r <= (10 * r) * rest) by (nonlinear_arith)
                requires
                    rest >= 1,
                    r >= 0,
            ;
        }
        r = r * 10;
        i = i + 1;
    }
    proof {
        lemma_pow10((20 - i) as nat);
        let rest = pow10((20 - i) as nat);
        assert(r <= r * rest) by (nonlinear_arith)
            requires
                rest >= 1,
                r >= 0,
        ;
    }
    r
}

/// The decimal digits of a number, least significant first, filled up with
/// zeros to at least `width` digits.
fn digits_of(k: u128, width: usize) -> (v: Vec<u8>)
    requires
        width >= 1,
    ensures
        all_digits(v@),
        digits_value(v@) == k,
        v.len() >= width,
        v.len() == width || v@.last() != 0,
{
    let mut v: Vec<u8> = Vec::new();
    let mut rest: u128 = k;
    proof {
        lemma_pow10(0);
        assert(digits_value(v@) == 0);
    }
    while rest > 0
        invariant
            all_digits(v@),
            digits_value(v@) + rest * pow10(v@.len()) == k,
            rest == 0 ==> v@.len() == 0 || v@.last() != 0,
        decreases rest,
    {
        let d: u8 = (rest % 10) as u8;
        proof {
            lemma_digits_value_push(v@, d);
            lemma_pow10(v@.len());
            let p = pow10(v@.len());
            assert(d * p + (rest / 10) * (10 * p) == rest * p) by (nonlinear_arith)
                requires
                    rest == 10 * (rest / 10) + d,
            ;
            assert(all_digits(v@.push(d))) by {
                assert forall|i: int| 0 <= i < v@.push(d).len() implies #[trigger] v@.push(d)[i] < 10 by {
                    if i < v@.len() {
                        assert(v@.push(d)[i] == v@[i]);
                    }
                }
            }
        }
        v.push(d);
        rest = rest / 10;
    }
    while v.len() < width
        invariant
            all_digits(v@),
            digits_value(v@) == k,
            v@.len() == 0 || v@.last() != 0 || v@.len() <= width,
        decreases width - v.len(),
    {
        proof {
            lemma_digits_value_push(v@, 0);
            assert(0 * pow10(v@.len()) == 0) by (nonlinear_arith);
            assert(all_digits(v@.push(0))) by {
                assert forall|i: int| 0 <= i < v@.push(0).len() implies #[trigger] v@.push(0)[i] < 10 by {
                    if i < v@.len() {
                        assert(v@.push(0)[i] == v@[i]);
                    }
                }
            }
        }
        v.push(0);
    }
    v
}

/// Twice the number that a digit string stands for.
fn double_digits(v: &Vec<u8>) -> (w: Vec<u8>)
    requires
        canonical(v@),
    ensures
        canonical(w@),
        digits_value(w@) == 2 * digits_value(v@),
        w.len() <= v.len() + 1,
{
    let mut w: Vec<u8> = Vec::new();
    let mut carry: u8 = 0;
    let mut i: usize = 0;
    proof {
        lemma_pow10(0);
        assert(v@.take(0) =~= Seq::<u8>::empty());
        assert(digits_value(Seq::<u8>::empty()) == 0);
        assert(digits_value(w@) == 0);
    }
    while i < v.len()
        invariant
            i <= v.len(),
            w@.len() == i,
            all_digits(v@),
            all_digits(w@),
            carry <= 1,
            digits_value(w@) + carry * pow10(i as nat) == 2 * digits_value(v@.take(i as int)),
            i >= 1 ==> w@[i - 1] + 10 * carry >= 2 * v@[i - 1],
        decreases v.len() - i,
    {
        assert(v@[i as int] < 10);
        let t: u8 = 2 * v[i] + carry;
        let d: u8 = t % 10;
        proof {
            let before = v@.take(i as int);
            assert(v@.take(i + 1) =~= before.push(v@[i as int]));
            lemma_digits_value_push(before, v@[i as int]);
            lemma_digits_value_push(w@, d);
            lemma_pow10(i as nat);
            let p = pow10(i as nat);
            let c = (t / 10) as int;
            assert(d * p + c * (10 * p) == (2 * v@[i as int] + carry) * p) by (nonlinear_arith)
                requires
                    t == 2 * v@[i as int] + carry,
                    t == 10 * c + d,
            ;
            assert((2 * v@[i as int] + carry) * p == 2 * (v@[i as int] * p) + carry * p) by (nonlinear_arith);
            assert(all_digits(w@.push(d))) by {
                assert forall|j: int| 0 <= j < w@.push(d).len() implies #[trigger] w@.push(d)[j] < 10 by {
                    if j < w@.len() {
                        assert(w@.push(d)[j] == w@[j]);
                    }
                }
            }
        }
        w.push(d);
        carry = t / 10;
        i = i + 1;
    }
    proof {
        assert(v@.take(i as int) =~= v@);
    }
    if carry > 0 {
        proof {
            lemma_digits_value_push(w@, carry);
            assert(all_digits(w@.push(carry))) by {
                assert forall|j: int| 0 <= j < w@.push(carry).len() implies #[trigger] w@.push(carry)[j] < 10 by {
                    if j < w@.len() {
                        assert(w@.push(carry)[j] == w@[j]);
                    }
                }
            }
        }
        w.push(carry);
    } else {
        proof {
            assert(0 * pow10(i as nat) == 0) by (nonlinear_arith);
        }
    }
    w
}

/// Appends the digits from place `from` up to, not including, place `to`, the
/// most significant first.
fn append_numeral(out: &mut String, digits: &Vec<u8>, from: usize, to: usize)
    requires
        from <= to <= digits.len(),
        all_digits(digits@),
    ensures
        final(out)@ == old(out)@ + numeral_of(digits@.subrange(from as int, to as int)),
{
    let mut i: usize = to;
    proof {
        assert(digits@.subrange(to as int, to as int) =~= Seq::<u8>::empty());
        assert(out@ =~= old(out)@ + numeral_of(digits@.subrange(to as int, to as int)));
    }
    while i > from
        invariant
            from <= i <= to <= digits.len(),
            all_digits(digits@),
            out@ == old(out)@ + numeral_of(digits@.subrange(i as int, to as int)),
        decreases i,
    {
        i = i - 1;
        let d: u8 = digits[i];
        proof {
            let part = digits@.subrange(i as int, to as int);
            assert(part.drop_first() =~= digits@.subrange(i + 1, to as int));
            assert(part[0] == d);
            assert(numeral_of(part) == numeral_of(part.drop_first()).push(digit_char(d as nat)));
        }
        let ghost before = out@;
        out.append(digit_text(d));
        proof {
            let tail = numeral_of(digits@.subrange(i + 1, to as int));
            assert(before + seq![digit_char(d as nat)] =~= old(out)@ + tail.push(digit_char(d as nat)));
        }
    }
}

/// The digits of `m * 2^doublings * 10^precision`: those of the whole number
/// `m * 2^doublings`, above `precision` zeros.
fn whole_digits(m: u64, doublings: u32, precision: u8) -> (v: Vec<u8>)
    requires
        precision <= MAX_PRECISION,
    ensures
        all_digits(v@),
        v@.len() >= precision + 1,
        canonical(v@.skip(precision as int)),
        digits_value(v@) == m * pow2(doublings as nat) * pow10(precision as nat),
{
    let mut whole: Vec<u8> = digits_of(m as u128, 1);
    let mut i: u32 = 0;
    proof {
        lemma_powers_of_two();
        assert(m * pow2(0) == m) by (nonlinear_arith)
            requires
                pow2(0) == 1,
        ;
    }
    while i < doublings
        invariant
            i <= doublings,
            canonical(whole@),
            digits_value(whole@) == m * pow2(i as nat),
        decreases doublings - i,
    {
        proof {
            vstd::arithmetic::power2::lemma_pow2_unfold((i + 1) as nat);
            assert(2 * (m * pow2(i as nat)) == m * (2 * pow2(i as nat))) by (nonlinear_arith);
        }
        whole = double_digits(&whole);
        i = i + 1;
    }
    let mut v: Vec<u8> = Vec::new();
    let mut zeros: u8 = 0;
    proof {
        assert(digits_value(v@) == 0);
    }
    while zeros < precision
        invariant
            zeros <= precision,
            v@.len() == zeros,
            all_digits(v@),
            digits_value(v@) == 0,
        decreases precision - zeros,
    {
        proof {
            lemma_digits_value_push(v@, 0);
            assert(0 * pow10(v@.len()) == 0) by (nonlinear_arith);
            assert(all_digits(v@.push(0))) by {
                assert forall|j: int| 0 <= j < v@.push(0).len() implies #[trigger] v@.push(0)[j] < 10 by {
                    if j < v@.len() {
                        assert(v@.push(0)[j] == v@[j]);
                    }
                }
            }
        }
        v.push(0);
        zeros = zeros + 1;
    }
    let mut j: usize = 0;
    proof {
        assert(whole@.take(0) =~= Seq::<u8>::empty());
        assert(digits_value(whole@.take(0)) == 0);
        assert(pow10(precision as nat) * 0 == 0) by (nonlinear_arith);
        assert(v@.skip(precision as int) =~= whole@.take(0));
    }
    while j < whole.len()
        invariant
            j <= whole.len(),
            v@.len() == precision + j,
            all_digits(v@),
            all_digits(whole@),
            digits_value(v@) == pow10(precision as nat) * digits_value(whole@.take(j as int)),
            v@.skip(precision as int) == whole@.take(j as int),
        decreases whole.len() - j,
    {
        let d: u8 = whole[j];
        proof {
            let before = whole@.take(j as int);
            assert(whole@.take(j + 1) =~= before.push(d));
            lemma_digits_value_push(before, d);
            lemma_digits_value_push(v@, d);
            vstd::arithmetic::power::lemma_pow_adds(10, precision as nat, j as nat);
            lemma_pow10(precision as nat);
            lemma_pow10(j as nat);
            lemma_pow10((precision + j) as nat);
            let pp = pow10(precision as nat);
            let pj = pow10(j as nat);
            assert((precision + j) as nat == precision as nat + j as nat);
            assert(pp * pj == vstd::arithmetic::power::pow(10, precision as nat) * vstd::arithmetic::power::pow(
                10,
                j as nat,
            )) by (nonlinear_arith)
                requires
                    pp == vstd::arithmetic::power::pow(10, precision as nat),
                    pj == vstd::arithmetic::power::pow(10, j as nat),
            ;
            assert(pow10((precision + j) as nat) == pp * pj);
            assert(pp * digits_value(before) + d * (pp * pj) == pp * (digits_value(before) + d * pj))
                by (nonlinear_arith);
            assert(d < 10);
            assert(all_digits(v@.push(d))) by {
                assert forall|t: int| 0 <= t < v@.push(d).len() implies #[trigger] v@.push(d)[t] < 10 by {
                    if t < v@.len() {
                        assert(v@.push(d)[t] == v@[t]);
                    }
                }
            }
            assert(v@.push(d).skip(precision as int) =~= v@.skip(precision as int).push(d));
        }
        v.push(d);
        j = j + 1;
    }
    proof {
        assert(whole@.take(j as int) =~= whole@);
        assert(pow10(precision as nat) * (m * pow2(doublings as nat)) == m * pow2(doublings as nat) * pow10(
            precision as nat,
        )) by (nonlinear_arith);
    }
    v
}

/// The digits of `m * 10^precision / 2^halvings`, rounded to a whole number, a
/// tie to the even one.
fn rounded_digits(m: u64, halvings: u32, precision: u8) -> (v: Vec<u8>)
    requires
        m < crate::arithmetic::SIGNIFICAND_LIMIT,
        halvings >= 1,
        precision <= MAX_PRECISION,
    ensures
        all_digits(v@),
        v@.len() >= precision + 1,
        canonical(v@.skip(precision as int)),
        digits_value(v@) == round_half_even((m as nat) * pow10(precision as nat), pow2(halvings as nat)),
{
    let tens: u128 = power_of_ten(precision);
    proof {
        lemma_powers_of_two();
        vstd::arithmetic::power2::lemma2_to64();
        lemma_pow2_pos(halvings as nat);
        lemma_pow2_adds(64, 3);
        lemma_pow2_adds(53, 67);
        lemma_pow2_adds(120, 7);
        vstd::arithmetic::power2::lemma_pow2_unfold(121);
        assert(m * tens < pow2(120)) by (nonlinear_arith)
            requires
                0 <= m < pow2(53),
                0 < tens < pow2(67),
                pow2(120) == pow2(53) * pow2(67),
        ;
        assert(pow2(120) < pow2(127)) by {
            lemma_pow2_strictly_increases(120, 127);
        }
    }
    let scaled: u128 = (m as u128) * tens;
    let ghost n: nat = scaled as nat;
    let ghost d: nat = pow2(halvings as nat);
    let k: u128 = if halvings >= 122 {
        proof {
            if halvings > 122 {
                lemma_pow2_strictly_increases(122, halvings as nat);
            }
            lemma_pow2_strictly_increases(121, 122);
            vstd::arithmetic::div_mod::lemma_small_mod(n, d);
            vstd::arithmetic::div_mod::lemma_basic_div(n as int, d as int);
            assert(round_half_even(n, d) == 0);
        }
        0
    } else {
        let divisor: u128 = power_of_two(halvings);
        proof {
            if halvings < 121 {
                lemma_pow2_strictly_increases(halvings as nat, 121);
            }
            lemma_pow2_strictly_increases(121, 127);
        }
        let q: u128 = scaled / divisor;
        let r: u128 = scaled % divisor;
        let twice: u128 = 2 * r;
        if twice > divisor || (twice == divisor && q % 2 == 1) {
            q + 1
        } else {
            q
        }
    };
    let v = digits_of(k, precision as usize + 1);
    proof {
        let tail = v@.skip(precision as int);
        assert(all_digits(tail)) by {
            assert forall|t: int| 0 <= t < tail.len() implies #[trigger] tail[t] < 10 by {
                assert(tail[t] == v@[t + precision]);
            }
        }
        if tail.len() > 1 {
            assert(tail.last() == v@.last());
        }
    }
    v
}

impl Binary64 {
    /// The number as decimal text with `precision` digits behind the point.
    pub fn to_fixed(self, precision: u8) -> (r: String)
        requires
            precision <= MAX_PRECISION,
        ensures
            r@ == fixed_text(self, precision as nat),
    {
        let mag: u64 = self.bits % SIGN_BIT;
        if mag > INFINITY_BITS {
            return String::from_str("NaN");
        }
        let mut out = String::new();
        if self.bits >= SIGN_BIT {
            out.append("-");
        }
        let ghost sign = out@;
        proof {
            assert(sign =~= if self.is_negative() {
                "-"@
            } else {
                Seq::<char>::empty()
            });
        }
        if mag == INFINITY_BITS {
            out.append("inf");
            return out;
        }
        let (m, scale) = decode(self);
        let ghost p = precision as nat;
        let ghost exact = round_half_even(self.magnitude() * pow10(p), unit());
        let digits: Vec<u8> = if scale >= 1074 {
            let v = whole_digits(m, scale - 1074, precision);
            proof {
                // the number is whole: m * 2^(scale - 1074) units
                let whole = (m as nat) * pow2((scale - 1074) as nat);
                lemma_pow2_adds((scale - 1074) as nat, 1074);
                lemma_pow2_pos(1074);
                let n = whole * pow10(p);
                assert(self.magnitude() * pow10(p) == n * unit()) by (nonlinear_arith)
                    requires
                        self.magnitude() == m * pow2(scale as nat),
                        pow2(scale as nat) == pow2((scale - 1074) as nat) * unit(),
                        whole == m * pow2((scale - 1074) as nat),
                        n == whole * pow10(p),
                ;
                assert(1 * unit() == unit()) by (nonlinear_arith);
                lemma_round_half_even_scale(n, 1, unit());
                assert(round_half_even(n, 1) == n);
            }
            v
        } else {
            let v = rounded_digits(m, 1074 - scale, precision);
            proof {
                let c = pow2(scale as nat);
                let halvings = (1074 - scale) as nat;
                lemma_pow2_adds(halvings, scale as nat);
                lemma_pow2_pos(scale as nat);
                lemma_pow2_pos(halvings);
                let n = (m as nat) * pow10(p);
                assert(self.magnitude() * pow10(p) == n * c) by (nonlinear_arith)
                    requires
                        self.magnitude() == m * c,
                        n == m * pow10(p),
                ;
                lemma_round_half_even_scale(n, pow2(halvings), c);
            }
            v
        };
        proof {
            assert(digits_value(digits@) == exact);
            lemma_numeral_is_padded(digits@, p);
            lemma_numeral_is_decimal(digits@.skip(p as int));
            assert(digits@.subrange(p as int, digits@.len() as int) =~= digits@.skip(p as int));
            assert(digits@.subrange(0, p as int) =~= digits@.take(p as int));
            if p == 0 {
                lemma_pow10(0);
                assert(digits@.skip(0) =~= digits@);
            }
        }
        append_numeral(&mut out, &digits, precision as usize, digits.len());
        if precision > 0 {
            proof {
                reveal_strlit(".");
                assert("."@ =~= seq!['.']);
            }
            out.append(".");
            append_numeral(&mut out, &digits, 0, precision as usize);
            proof {
                assert(out@ =~= sign + (decimal(exact / pow10(p)) + seq!['.'] + padded(exact, p)));
            }
        }
        out
    }
}

} // verus!
