//! IEEE 754 binary64 numbers as bit patterns, with their order.
//!
//! Every finite binary64 is an integer multiple of 2^-1074, the smallest
//! positive binary64. The model of a number is that integer: `value()`.
//! Infinity takes the next free place above the largest finite magnitude,
//! 2^2098, so that the order of the model is the order of the numbers.

use vstd::prelude::*;
use vstd::arithmetic::power2::{pow2, lemma_pow2_pos, lemma_pow2_unfold, lemma_pow2_strictly_increases};
use crate::rounding::bit_length;

verus! {

/// The sign bit of the encoding.
pub const SIGN_BIT: u64 = 0x8000_0000_0000_0000;

/// 2^52: the implicit leading bit of a normal significand, and the weight of
/// the exponent field in the encoding.
pub const HIDDEN_BIT: u64 = 0x0010_0000_0000_0000;

/// The encoding of positive infinity: all exponent bits set, fraction zero.
pub const INFINITY_BITS: u64 = 0x7ff0_0000_0000_0000;

/// An IEEE 754 binary64 number, held as its 64-bit encoding.
#[derive(Clone, Copy, Debug)]
pub struct Binary64 {
    pub bits: u64,
}

impl Binary64 {
    /// The encoding without its sign bit.
    pub open spec fn magnitude_bits(self) -> nat {
        (self.bits % SIGN_BIT) as nat
    }

    /// The sign bit is set. This holds of the negative zero too.
    pub open spec fn is_negative(self) -> bool {
        self.bits >= SIGN_BIT
    }

    /// The encoding is that of a NaN: all exponent bits set, and a fraction
    /// that is not zero.
    pub open spec fn spec_is_nan(self) -> bool {
        self.magnitude_bits() > INFINITY_BITS
    }

    /// The number is one of the two infinities.
    pub open spec fn is_infinite(self) -> bool {
        self.magnitude_bits() == INFINITY_BITS
    }

    /// The number is neither an infinity nor a NaN.
    pub open spec fn is_finite(self) -> bool {
        self.magnitude_bits() < INFINITY_BITS
    }

    /// The eleven exponent bits.
    pub open spec fn biased_exponent(self) -> nat {
        self.magnitude_bits() / (HIDDEN_BIT as nat)
    }

    /// The fifty-two fraction bits.
    pub open spec fn fraction(self) -> nat {
        self.magnitude_bits() % (HIDDEN_BIT as nat)
    }

    /// The significand as an integer: the fraction, with the implicit leading
    /// bit unless the number is subnormal.
    pub open spec fn significand(self) -> nat {
        if self.biased_exponent() == 0 {
            self.fraction()
        } else {
            HIDDEN_BIT as nat + self.fraction()
        }
    }

    /// The power of two by which the significand is scaled, counted from
    /// 2^-1074.
    pub open spec fn scale(self) -> nat {
        if self.biased_exponent() == 0 {
            0
        } else {
            (self.biased_exponent() - 1) as nat
        }
    }

    /// The absolute value in units of 2^-1074. For an infinity this is 2^2098.
    /// (It is defined, but means nothing, for a NaN.)
    pub open spec fn magnitude(self) -> nat {
        self.significand() * pow2(self.scale())
    }

    /// The number in units of 2^-1074.
    pub open spec fn value(self) -> int {
        if self.is_negative() {
            -(self.magnitude() as int)
        } else {
            self.magnitude() as int
        }
    }

    /// The positive number with the given magnitude, which is a binary64
    /// magnitude: the encoding holds the bits above the lowest 52 as they
    /// are, and counts in its exponent field how far they were shifted.
    pub open spec fn positive(magnitude: nat) -> Binary64 {
        if magnitude < 2 * HIDDEN_BIT {
            Binary64 { bits: magnitude as u64 }
        } else {
            let shift = (bit_length(magnitude) - 53) as nat;
            Binary64 { bits: (shift * HIDDEN_BIT + magnitude / pow2(shift)) as u64 }
        }
    }

    /// `self <= other` as IEEE 754 defines it: false if either is a NaN.
    pub open spec fn spec_le(self, other: Binary64) -> bool {
        !self.spec_is_nan() && !other.spec_is_nan() && self.value() <= other.value()
    }

    /// `self < other` as IEEE 754 defines it: false if either is a NaN.
    pub open spec fn spec_lt(self, other: Binary64) -> bool {
        !self.spec_is_nan() && !other.spec_is_nan() && self.value() < other.value()
    }

    /// `self >= other` as IEEE 754 defines it: false if either is a NaN.
    pub open spec fn spec_ge(self, other: Binary64) -> bool {
        other.spec_le(self)
    }

    /// The number with the given encoding.
    pub fn from_bits(bits: u64) -> (r: Binary64)
        ensures
            r.bits == bits,
    {
        Binary64 { bits }
    }

    /// The encoding of the number.
    pub fn to_bits(self) -> (r: u64)
        ensures
            r == self.bits,
    {
        self.bits
    }

    /// True if the number is a NaN.
    #[verifier::when_used_as_spec(spec_is_nan)]
    pub fn is_nan(self) -> (r: bool)
        ensures
            r == self.spec_is_nan(),
    {
        self.bits % SIGN_BIT > INFINITY_BITS
    }

    /// `self <= other`: false if either is a NaN; the two zeros are equal.
    #[verifier::when_used_as_spec(spec_le)]
    pub fn le(self, other: Binary64) -> (r: bool)
        ensures
            r == self.spec_le(other),
    {
        if self.is_nan() || other.is_nan() {
            return false;
        }
        let a: u64 = self.bits % SIGN_BIT;
        let b: u64 = other.bits % SIGN_BIT;
        proof {
            lemma_magnitude_order(self, other);
            lemma_magnitude_order(other, self);
            lemma_magnitude_zero(self);
            lemma_magnitude_zero(other);
        }
        if self.bits >= SIGN_BIT {
            if other.bits >= SIGN_BIT {
                b <= a
            } else {
                true
            }
        } else {
            if other.bits >= SIGN_BIT {
                a == 0 && b == 0
            } else {
                a <= b
            }
        }
    }

    /// `self < other`: false if either is a NaN.
    #[verifier::when_used_as_spec(spec_lt)]
    pub fn lt(self, other: Binary64) -> (r: bool)
        ensures
            r == self.spec_lt(other),
    {
        if self.is_nan() || other.is_nan() {
            return false;
        }
        !other.le(self)
    }

    /// `self >= other`: false if either is a NaN.
    #[verifier::when_used_as_spec(spec_ge)]
    pub fn ge(self, other: Binary64) -> (r: bool)
        ensures
            r == self.spec_ge(other),
    {
        other.le(self)
    }

    /// Four times the number, as IEEE 754 multiplication gives it. The product
    /// is exact unless it overflows, and then it is an infinity. A NaN stays a
    /// NaN.
    pub fn quadruple(self) -> (r: Binary64)
        ensures
            r.spec_is_nan() == self.spec_is_nan(),
            !self.spec_is_nan() ==> r.value() == saturate(4 * self.value()),
            !self.spec_is_nan() ==> r.is_negative() == self.is_negative(),
    {
        let mag: u64 = self.bits % SIGN_BIT;
        let sign: u64 = self.bits - mag;
        if mag >= INFINITY_BITS {
            proof {
                if mag == INFINITY_BITS {
                    lemma_magnitude_of_infinity(self);
                    lemma_pow2_pos(2046);
                    assert(infinity_magnitude() > 0) by (nonlinear_arith)
                        requires
                            infinity_magnitude() == (HIDDEN_BIT as nat) * pow2(2046),
                            pow2(2046) > 0,
                    ;
                }
            }
            return self;
        }
        let exponent: u64 = mag / HIDDEN_BIT;
        let quadrupled: u64 = if exponent == 0 {
            if mag < HIDDEN_BIT / 2 {
                4 * mag
            } else {
                HIDDEN_BIT + 2 * mag
            }
        } else if exponent + 2 >= 2047 {
            INFINITY_BITS
        } else {
            mag + 2 * HIDDEN_BIT
        };
        let r = Binary64 { bits: sign + quadrupled };
        proof {
            assert(r.magnitude_bits() == quadrupled);
            assert(r.is_negative() == self.is_negative());
            lemma_pow2_small();
            lemma_magnitude_bound(self);
            let p = pow2(self.scale()) as int;
            let s = self.significand() as int;
            if exponent == 0 {
                assert(self.magnitude() == mag) by (nonlinear_arith)
                    requires
                        self.magnitude() == s * p,
                        p == 1,
                        s == mag,
                ;
                if mag < HIDDEN_BIT / 2 {
                    assert(4 * mag < 2 * HIDDEN_BIT);
                    if 4 * mag < HIDDEN_BIT {
                        assert(r.significand() == 4 * mag);
                        assert(r.scale() == 0);
                    } else {
                        assert(r.biased_exponent() == 1);
                        assert(r.significand() == 4 * mag);
                        assert(r.scale() == 0);
                    }
                    assert(r.magnitude() == 4 * mag) by (nonlinear_arith)
                        requires
                            r.magnitude() == r.significand() * pow2(r.scale()),
                            pow2(r.scale()) == 1,
                            r.significand() == 4 * mag,
                    ;
                    lemma_magnitude_bound(r);
                } else {
                    assert(r.biased_exponent() == 2);
                    assert(r.significand() == 2 * mag);
                    assert(r.scale() == 1);
                    assert(r.magnitude() == 4 * mag) by (nonlinear_arith)
                        requires
                            r.magnitude() == r.significand() * pow2(r.scale()),
                            pow2(r.scale()) == 2,
                            r.significand() == 2 * mag,
                    ;
                    lemma_magnitude_bound(r);
                }
                assert(r.magnitude() == 4 * self.magnitude());
            } else if exponent + 2 >= 2047 {
                lemma_magnitude_of_infinity(r);
                // 4 * 2^52 * 2^2044 is already 2^52 * 2^2046
                lemma_pow2_unfold(2046);
                lemma_pow2_unfold(2045);
                if exponent == 2045 {
                    lemma_pow2_unfold(2045);
                } else {
                    assert(exponent == 2046);
                }
                let top = pow2(2046) as int;
                assert(4 * p >= top);
                assert(4 * (s * p) >= (HIDDEN_BIT as int) * top) by (nonlinear_arith)
                    requires
                        s >= HIDDEN_BIT as int,
                        4 * p >= top,
                        top > 0,
                ;
                assert(r.magnitude() == infinity_magnitude());
                assert(4 * self.magnitude() >= infinity_magnitude());
            } else {
                assert(r.biased_exponent() == exponent + 2);
                assert(r.fraction() == self.fraction());
                assert(r.scale() == self.scale() + 2);
                lemma_pow2_unfold(r.scale());
                lemma_pow2_unfold((r.scale() - 1) as nat);
                let q = pow2(r.scale()) as int;
                assert(s * q == 4 * (s * p)) by (nonlinear_arith)
                    requires
                        q == 4 * p,
                ;
                lemma_magnitude_bound(r);
                assert(r.significand() == s);
                assert(r.magnitude() == 4 * self.magnitude());
            }
        }
        r
    }
}

/// 2^2098 in units of 2^-1074: the magnitude that stands for an infinity.
pub open spec fn infinity_magnitude() -> nat {
    (HIDDEN_BIT as nat) * pow2(2046)
}

/// What becomes of an exact result that is too large for a finite binary64: it
/// is replaced by the infinity of its sign.
pub open spec fn saturate(v: int) -> int {
    if v >= infinity_magnitude() {
        infinity_magnitude() as int
    } else if v <= -(infinity_magnitude() as int) {
        -(infinity_magnitude() as int)
    } else {
        v
    }
}

proof fn lemma_pow2_small()
    ensures
        pow2(0) == 1,
        pow2(1) == 2,
        pow2(2) == 4,
{
    vstd::arithmetic::power2::lemma2_to64();
}

/// The magnitude of an infinity is `infinity_magnitude()`.
pub proof fn lemma_magnitude_of_infinity(a: Binary64)
    requires
        a.is_infinite(),
    ensures
        a.magnitude() == infinity_magnitude(),
{
    assert(a.biased_exponent() == 2047);
    assert(a.fraction() == 0);
}

/// A finite number has a magnitude below that of the infinities.
pub proof fn lemma_magnitude_bound(a: Binary64)
    requires
        a.is_finite(),
    ensures
        a.magnitude() < infinity_magnitude(),
{
    let inf = Binary64 { bits: INFINITY_BITS };
    lemma_magnitude_order(a, inf);
    lemma_magnitude_of_infinity(inf);
}

/// The magnitude grows strictly with the encoding: of two bit patterns without
/// sign, the larger one encodes the larger magnitude.
pub proof fn lemma_magnitude_order(a: Binary64, b: Binary64)
    ensures
        a.magnitude_bits() < b.magnitude_bits() ==> a.magnitude() < b.magnitude(),
        a.magnitude_bits() == b.magnitude_bits() ==> a.magnitude() == b.magnitude(),
{
    if a.magnitude_bits() < b.magnitude_bits() {
        let ea = a.biased_exponent();
        let eb = b.biased_exponent();
        let sa = a.significand() as int;
        let sb = b.significand() as int;
        let pa = pow2(a.scale()) as int;
        let pb = pow2(b.scale()) as int;
        lemma_pow2_pos(a.scale());
        lemma_pow2_pos(b.scale());
        assert(a.magnitude() == sa * pa);
        assert(b.magnitude() == sb * pb);
        assert(ea <= eb);
        if ea == eb {
            assert(sa < sb);
            assert(sa * pa < sb * pa) by (nonlinear_arith)
                requires
                    sa < sb,
                    pa > 0,
            ;
            assert(pa == pb);
            assert(a.magnitude() < b.magnitude());
        } else if ea == 0 {
            assert(pow2(0) == 1) by {
                vstd::arithmetic::power2::lemma2_to64();
            }
            assert(sa < HIDDEN_BIT);
            assert(sb * pb >= HIDDEN_BIT as int) by (nonlinear_arith)
                requires
                    sb >= HIDDEN_BIT as int,
                    pb >= 1,
            ;
            assert(sa * pa == sa) by (nonlinear_arith)
                requires
                    pa == 1,
            ;
            assert(a.magnitude() < b.magnitude());
        } else {
            // a's magnitude is below 2^53 * 2^(ea - 1) = 2^52 * 2^ea, and
            // 2^ea is at most 2^(eb - 1).
            lemma_pow2_unfold(ea);
            let pe = pow2(ea) as int;
            assert(pe == 2 * pa);
            if ea < eb - 1 {
                lemma_pow2_strictly_increases(ea, (eb - 1) as nat);
            }
            assert(pe <= pb);
            assert(sa * pa < (HIDDEN_BIT as int) * pe) by (nonlinear_arith)
                requires
                    sa < 2 * (HIDDEN_BIT as int),
                    pe == 2 * pa,
                    pa > 0,
            ;
            assert((HIDDEN_BIT as int) * pe <= sb * pb) by (nonlinear_arith)
                requires
                    (HIDDEN_BIT as int) <= sb,
                    0 < pe <= pb,
            ;
            assert(a.magnitude() < b.magnitude());
        }
    }
}

/// A number that is neither negative nor a NaN is the positive number of its
/// magnitude.
pub proof fn lemma_positive_of_magnitude(a: Binary64)
    requires
        !a.is_negative(),
        !a.spec_is_nan(),
    ensures
        Binary64::positive(a.magnitude()) == a,
{
    vstd::arithmetic::power2::lemma2_to64();
    vstd::arithmetic::power2::lemma2_to64_rest();
    let m = a.significand();
    let s = a.scale();
    let g = a.magnitude();
    let p = pow2(s);
    lemma_pow2_pos(s);
    if a.biased_exponent() <= 1 {
        assert(g == m) by (nonlinear_arith)
            requires
                g == m * p,
                p == 1,
        ;
    } else {
        vstd::arithmetic::power2::lemma_pow2_adds(52, s);
        vstd::arithmetic::power2::lemma_pow2_adds(53, s);
        lemma_pow2_unfold(s);
        assert(pow2(52) * p <= g < pow2(53) * p) by (nonlinear_arith)
            requires
                g == m * p,
                pow2(52) <= m < pow2(53),
                p > 0,
        ;
        assert(g >= 2 * HIDDEN_BIT) by (nonlinear_arith)
            requires
                pow2(52) * p <= g,
                p >= 2,
                pow2(52) == HIDDEN_BIT,
        ;
        crate::rounding::lemma_bit_length_unique(g, 53 + s);
        vstd::arithmetic::div_mod::lemma_fundamental_div_mod_converse(g as int, p as int, m as int, 0);
        assert(s * HIDDEN_BIT + m == a.bits) by (nonlinear_arith)
            requires
                m == HIDDEN_BIT + a.fraction(),
                s == a.biased_exponent() - 1,
                a.bits == a.biased_exponent() * HIDDEN_BIT + a.fraction(),
        ;
    }
}

/// Only the two zeros have magnitude zero.
pub proof fn lemma_magnitude_zero(a: Binary64)
    ensures
        a.magnitude() == 0 <==> a.magnitude_bits() == 0,
{
    let s = a.significand() as int;
    let p = pow2(a.scale()) as int;
    lemma_pow2_pos(a.scale());
    if a.magnitude_bits() != 0 {
        assert(s > 0);
        assert(s * p > 0) by (nonlinear_arith)
            requires
                s > 0,
                p > 0,
        ;
    } else {
        assert(s == 0);
        assert(s * p == 0) by (nonlinear_arith)
            requires
                s == 0,
        ;
    }
}

} // verus!
