//! Correctly rounded binary64 arithmetic on bit patterns.
//!
//! One function does all the rounding: `round_ratio` takes an exact result
//! `n * 2^e / d` and returns the nearest binary64. The operations prepare
//! `n`, `d` and `e` from their arguments.

use vstd::prelude::*;
use vstd::arithmetic::power2::{pow2, lemma_pow2_pos, lemma_pow2_unfold, lemma_pow2_adds, lemma_pow2_strictly_increases, lemma2_to64, lemma2_to64_rest};
use vstd::arithmetic::div_mod::{lemma_fundamental_div_mod, lemma_fundamental_div_mod_converse, lemma_div_denominator};
use crate::binary64::{Binary64, HIDDEN_BIT, infinity_magnitude, lemma_magnitude_bound};
use crate::rounding::{bit_length, nearest_magnitude, round_half_even, rounds_up, spacing, lemma_bit_length_shift, lemma_bit_length_unique, lemma_round_from_quotient, lemma_round_half_even_scale};

verus! {

/// 2^127: the top bit of a `u128`.
pub const TOP_BIT: u128 = 0x8000_0000_0000_0000_0000_0000_0000_0000;

/// 2^53: one more than the largest significand.
pub const SIGNIFICAND_LIMIT: u64 = 0x0020_0000_0000_0000;

/// The value that `round_ratio` gives for a quotient with at least 54 bits,
/// before it is held against infinity: the top 53 bits of `n / d`, one more if
/// the rest rounds up, back at their place and shifted by `w`.
pub open spec fn rounded_quotient(n: nat, d: nat, w: nat) -> nat {
    let q = n / d;
    let k = (bit_length(q) - 53) as nat;
    let m = q / pow2(k);
    let up: nat = if rounds_up(q % pow2(k), k, n % d != 0, m % 2 == 1) {
        1
    } else {
        0
    };
    (m + up) * pow2(k + w)
}

/// Rounding `n * 2^w / d` comes down to rounding the integer quotient of `n`
/// by `d`, as long as that quotient has more bits than a significand holds.
pub proof fn lemma_nearest_from_quotient(n: nat, d: nat, w: nat)
    requires
        d > 0,
        bit_length(n / d) >= 54,
    ensures
        nearest_magnitude(n * pow2(w), d) == (if rounded_quotient(n, d, w) >= infinity_magnitude() {
            infinity_magnitude()
        } else {
            rounded_quotient(n, d, w)
        }),
{
    let q = n / d;
    let r = n % d;
    let k = (bit_length(q) - 53) as nat;
    let pw = pow2(w);
    let pk = pow2(k);
    lemma_pow2_pos(w);
    lemma_pow2_pos(k);
    lemma_pow2_adds(k, w);
    let x = n * pw;
    // x / d is q shifted left by w places, with something in the low places
    let low = (r * pw) / d;
    let rest = (r * pw) % d;
    lemma_fundamental_div_mod(n as int, d as int);
    lemma_fundamental_div_mod((r * pw) as int, d as int);
    assert(low < pw) by (nonlinear_arith)
        requires
            r * pw == d * low + rest,
            0 <= rest,
            r < d,
            pw > 0,
            low >= 0,
    ;
    assert(x == (q * pw + low) * d + rest) by (nonlinear_arith)
        requires
            x == n * pw,
            n == d * q + r,
            r * pw == d * low + rest,
    ;
    lemma_fundamental_div_mod_converse(x as int, d as int, (q * pw + low) as int, rest as int);
    assert(x / d == q * pw + low);
    assert(q > 0) by {
        assert(bit_length(0) == 0);
    }
    lemma_bit_length_shift(q, w, low);
    assert(spacing(x / d) == k + w);
    // the grid is 2^(k + w); cancel 2^w, then round from the quotient
    assert(d * pow2(k + w) == (d * pk) * pw) by (nonlinear_arith)
        requires
            pow2(k + w) == pk * pw,
    ;
    assert(d * pk > 0) by (nonlinear_arith)
        requires
            d > 0,
            pk > 0,
    ;
    lemma_round_half_even_scale(n, d * pk, pw);
    lemma_round_from_quotient(n, d, k);
}

/// Shifts a number left until its top bit is set.
fn normalize(n: u128) -> (r: (u128, u32))
    requires
        n > 0,
    ensures
        r.0 == n * pow2(r.1 as nat),
        r.0 >= TOP_BIT,
        r.1 <= 127,
{
    let mut x: u128 = n;
    let mut a: u32 = 0;
    proof {
        lemma2_to64();
    }
    while x < TOP_BIT
        invariant
            x == n * pow2(a as nat),
            x > 0,
            n > 0,
            a <= 127,
        decreases 128 - a,
    {
        proof {
            lemma_pow2_unfold((a + 1) as nat);
            assert(n * (2 * pow2(a as nat)) == 2 * (n * pow2(a as nat))) by (nonlinear_arith);
            if a == 127 {
                lemma_powers_of_two();
                assert(n * pow2(127) >= pow2(127)) by (nonlinear_arith)
                    requires
                        n >= 1,
                ;
            }
        }
        x = x * 2;
        a = a + 1;
    }
    (x, a)
}

/// The powers of two that the arithmetic names, as numbers.
pub proof fn lemma_powers_of_two()
    ensures
        pow2(0) == 1,
        pow2(127) == TOP_BIT,
        pow2(75) == 0x0800_0000_0000_0000_0000u128,
        pow2(70) == 0x40_0000_0000_0000_0000u128,
        pow2(11) == 0x800,
        pow2(52) == HIDDEN_BIT,
        pow2(53) == SIGNIFICAND_LIMIT,
        pow2(63) == 0x8000_0000_0000_0000u64,
        pow2(64) == 0x1_0000_0000_0000_0000u128,
{
    lemma2_to64();
    lemma2_to64_rest();
    lemma_pow2_adds(64, 63);
    lemma_pow2_adds(64, 11);
    lemma_pow2_adds(64, 6);
}

/// Finds how many low bits a quotient has beyond the 53 of a significand.
fn excess_bits(q: u128) -> (r: (u128, u32))
    requires
        q >= 0x8000_0000_0000_0000u128,
    ensures
        r.0 == pow2(r.1 as nat),
        r.0 > 0,
        1 <= r.1 <= 75,
        HIDDEN_BIT <= q / r.0 < SIGNIFICAND_LIMIT,
{
    let mut p: u128 = 1;
    let mut k: u32 = 0;
    proof {
        lemma_powers_of_two();
    }
    while q / p >= SIGNIFICAND_LIMIT as u128
        invariant
            p == pow2(k as nat),
            p > 0,
            k <= 75,
            q / p >= HIDDEN_BIT,
            q >= 0x8000_0000_0000_0000u128,
        decreases 76 - k,
    {
        proof {
            lemma_powers_of_two();
            lemma_pow2_unfold((k + 1) as nat);
            lemma_div_denominator(q as int, p as int, 2);
            // p stays below 2^75, since q / p is at least 2^53
            lemma_fundamental_div_mod(q as int, p as int);
            let t = (q / p) as int;
            assert(p * t <= q);
            assert(p < 0x0800_0000_0000_0000_0000u128) by (nonlinear_arith)
                requires
                    p * t <= q,
                    t >= 0x0020_0000_0000_0000,
                    q < 0x1_0000_0000_0000_0000_0000_0000_0000_0000,
                    p > 0,
            ;
            if k >= 75 {
                lemma_pow2_strictly_increases(75, (k + 1) as nat);
            }
        }
        p = p * 2;
        k = k + 1;
    }
    proof {
        lemma_powers_of_two();
    }
    (p, k)
}

/// The nearest binary64 to `n * 2^e / d`.
pub(crate) fn round_ratio(n: u128, d: u64, e: i32) -> (r: Binary64)
    requires
        n > 0,
        d > 0,
        -900 <= e <= 800,
    ensures
        !r.is_negative(),
        r.is_finite(),
        r.biased_exponent() >= 1,
        r.magnitude() == nearest_magnitude((n as nat) * pow2((e + 1074) as nat), d as nat),
{
    let (x, a) = normalize(n);
    let q: u128 = x / (d as u128);
    let rem: u128 = x % (d as u128);
    proof {
        lemma_powers_of_two();
        lemma_fundamental_div_mod(x as int, d as int);
        assert(q >= 0x8000_0000_0000_0000u128) by (nonlinear_arith)
            requires
                x == d * q + rem,
                rem < d,
                0 < d < 0x1_0000_0000_0000_0000,
                x >= 0x8000_0000_0000_0000_0000_0000_0000_0000,
                q >= 0,
        ;
    }
    let (p, k) = excess_bits(q);
    let m: u64 = (q / p) as u64;
    let low: u128 = q % p;
    let half: u128 = p / 2;
    let up: bool = low > half || (low == half && (rem != 0 || m % 2 == 1));
    let mut significand: u64 = if up {
        m + 1
    } else {
        m
    };
    let mut scale: i32 = k as i32 + e - a as i32 + 1074;
    let ghost w: nat = (e + 1074 - a) as nat;
    let ghost rounded: nat = (significand as nat) * pow2(k as nat + w);
    proof {
        let kn = k as nat;
        lemma_pow2_unfold(kn);
        assert(half == pow2((kn - 1) as nat));
        // q has 53 + k bits
        lemma_pow2_adds(52, kn);
        lemma_pow2_adds(53, kn);
        lemma_fundamental_div_mod(q as int, p as int);
        let mi = m as int;
        assert(pow2(52) * p <= q) by (nonlinear_arith)
            requires
                q == p * mi + low,
                mi >= pow2(52),
                low >= 0,
                p > 0,
        ;
        assert(q < pow2(53) * p) by (nonlinear_arith)
            requires
                q == p * mi + low,
                mi + 1 <= pow2(53),
                low < p,
                p > 0,
        ;
        lemma_bit_length_unique(q as nat, 53 + kn);
        // n * 2^(e + 1074) is x * 2^w
        lemma_pow2_adds(a as nat, w);
        assert((n as nat) * pow2((e + 1074) as nat) == (x as nat) * pow2(w)) by (nonlinear_arith)
            requires
                x == n * pow2(a as nat),
                pow2((e + 1074) as nat) == pow2(a as nat) * pow2(w),
        ;
        lemma_nearest_from_quotient(x as nat, d as nat, w);
        assert(rounded_quotient(x as nat, d as nat, w) == rounded);
        assert(scale == kn + w);
    }
    if significand == SIGNIFICAND_LIMIT {
        proof {
            lemma_pow2_unfold((scale + 1) as nat);
            assert(SIGNIFICAND_LIMIT * pow2(scale as nat) == HIDDEN_BIT * (2 * pow2(scale as nat)))
                by (nonlinear_arith);
        }
        significand = HIDDEN_BIT;
        scale = scale + 1;
    }
    let r = Binary64 { bits: ((scale + 1) as u64) * HIDDEN_BIT + (significand - HIDDEN_BIT) };
    proof {
        assert(r.magnitude_bits() == r.bits);
        assert(r.biased_exponent() == scale + 1);
        assert(r.fraction() == significand - HIDDEN_BIT);
        assert(r.significand() == significand);
        assert(r.scale() == scale);
        assert(r.magnitude() == rounded);
        lemma_magnitude_bound(r);
    }
    r
}

/// The number one in units of 2^-1074.
pub open spec fn unit() -> nat {
    pow2(1074)
}

/// The magnitude of the binary64 nearest to the integer `n`: what a
/// conversion from an unsigned integer gives.
pub open spec fn from_integer(n: nat) -> nat {
    nearest_magnitude(n * unit(), 1)
}

/// The magnitude of the binary64 sum of two magnitudes.
pub open spec fn sum(x: nat, y: nat) -> nat {
    nearest_magnitude(x + y, 1)
}

/// The magnitude of the binary64 difference of two magnitudes, the first of
/// which is not the smaller.
pub open spec fn difference(x: nat, y: nat) -> nat {
    nearest_magnitude((x - y) as nat, 1)
}

/// The magnitude of the binary64 quotient of two magnitudes, the second of
/// which is not zero.
pub open spec fn quotient(x: nat, y: nat) -> nat {
    nearest_magnitude(x * unit(), y)
}

/// Zero rounds to zero.
pub proof fn lemma_nearest_of_zero(d: nat)
    requires
        d > 0,
    ensures
        nearest_magnitude(0, d) == 0,
{
    lemma_powers_of_two();
    assert(0nat / d == 0 && 0nat % d == 0) by (nonlinear_arith)
        requires
            d > 0,
    ;
    assert(bit_length(0) == 0);
    assert(d * pow2(0) == d) by (nonlinear_arith)
        requires
            pow2(0) == 1,
    ;
    assert(round_half_even(0, d) == 0);
    assert(0 * pow2(0) == 0) by (nonlinear_arith);
    lemma_pow2_pos(2046);
    assert(infinity_magnitude() > 0) by (nonlinear_arith)
        requires
            infinity_magnitude() == (HIDDEN_BIT as nat) * pow2(2046),
            pow2(2046) > 0,
    ;
}

/// The significand and the scale of a finite number.
pub(crate) fn decode(x: Binary64) -> (r: (u64, u32))
    requires
        x.is_finite(),
    ensures
        r.0 == x.significand(),
        r.1 == x.scale(),
        r.0 < SIGNIFICAND_LIMIT,
        r.1 <= 2045,
        x.magnitude() == r.0 * pow2(r.1 as nat),
        x.biased_exponent() >= 1 ==> r.0 >= HIDDEN_BIT,
{
    let mag: u64 = x.bits % crate::binary64::SIGN_BIT;
    let exponent: u64 = mag / HIDDEN_BIT;
    let fraction: u64 = mag % HIDDEN_BIT;
    if exponent == 0 {
        (fraction, 0)
    } else {
        (HIDDEN_BIT + fraction, (exponent - 1) as u32)
    }
}

impl Binary64 {
    /// Positive zero.
    pub fn zero() -> (r: Binary64)
        ensures
            r.bits == 0,
            r.magnitude() == 0,
            !r.is_negative(),
            r.is_finite(),
    {
        let r = Binary64 { bits: 0 };
        proof {
            crate::binary64::lemma_magnitude_zero(r);
        }
        r
    }

    /// The binary64 nearest to an unsigned integer, a tie going to the even
    /// significand.
    pub fn from_u64(n: u64) -> (r: Binary64)
        ensures
            !r.is_negative(),
            r.is_finite(),
            r.magnitude() == from_integer(n as nat),
            n > 0 ==> r.biased_exponent() >= 1,
    {
        if n == 0 {
            proof {
                assert(0 * unit() == 0) by (nonlinear_arith);
                lemma_nearest_of_zero(1);
            }
            Binary64::zero()
        } else {
            round_ratio(n as u128, 1, 0)
        }
    }
}

/// A normal number lies between 2^52 and 2^53 times two to its scale; a
/// subnormal one is below 2^52.
pub proof fn lemma_magnitude_range(x: Binary64)
    ensures
        x.biased_exponent() >= 1 ==> pow2(52 + x.scale()) <= x.magnitude() < pow2(53 + x.scale()),
        x.biased_exponent() == 0 ==> x.magnitude() < pow2(52),
        x.significand() < pow2(53),
{
    lemma_powers_of_two();
    let m = x.significand();
    let p = pow2(x.scale());
    lemma_pow2_adds(52, x.scale());
    lemma_pow2_adds(53, x.scale());
    lemma_pow2_pos(x.scale());
    if x.biased_exponent() >= 1 {
        assert(pow2(52) * p <= m * p < pow2(53) * p) by (nonlinear_arith)
            requires
                pow2(52) <= m < pow2(53),
                p > 0,
        ;
    } else {
        assert(m * p == m) by (nonlinear_arith)
            requires
                p == 1,
        ;
    }
}

/// What a bound on the magnitude of a finite number says of its scale.
pub proof fn lemma_scale_range(x: Binary64, lo: nat, hi: nat)
    requires
        x.is_finite(),
        lo >= 52,
        pow2(lo) <= x.magnitude() <= pow2(hi),
    ensures
        x.biased_exponent() >= 1,
        lo - 52 <= x.scale() <= hi - 52,
{
    lemma_magnitude_range(x);
    if lo > 52 {
        lemma_pow2_strictly_increases(52, lo);
    }
    let s = x.scale();
    if lo >= 53 + s {
        if lo > 53 + s {
            lemma_pow2_strictly_increases(53 + s, lo);
        }
    }
    if 52 + s > hi {
        lemma_pow2_strictly_increases(hi, 52 + s);
    }
}

/// The magnitude of a number that is not a NaN is a binary64 magnitude.
pub proof fn lemma_magnitude_is_magnitude(x: Binary64)
    requires
        !x.spec_is_nan(),
    ensures
        crate::rounding::is_magnitude(x.magnitude()),
{
    lemma_magnitude_range(x);
    if x.is_finite() {
        lemma_magnitude_bound(x);
    } else {
        crate::binary64::lemma_magnitude_of_infinity(x);
    }
    crate::rounding::lemma_shifted_is_magnitude(x.significand(), x.scale());
}

/// The binary64 nearest to a positive integer below 2^64 lies between one and
/// 2^64.
pub proof fn lemma_from_integer_bounds(n: nat)
    requires
        1 <= n <= u64::MAX,
    ensures
        unit() <= from_integer(n) <= pow2(1138),
{
    lemma_powers_of_two();
    lemma_pow2_adds(64, 1074);
    lemma_power_is_magnitude(1074);
    lemma_power_is_magnitude(1138);
    crate::rounding::lemma_nearest_of_magnitude(pow2(1074), 1);
    crate::rounding::lemma_nearest_of_magnitude(pow2(1138), 1);
    assert(unit() * 1 <= n * unit() * 1) by (nonlinear_arith)
        requires
            n >= 1,
    ;
    assert(n * unit() * 1 <= pow2(1138) * 1) by (nonlinear_arith)
        requires
            n <= pow2(64),
            pow2(1138) == pow2(64) * unit(),
    ;
    crate::rounding::lemma_nearest_monotonic(unit() * 1, 1, n * unit(), 1);
    crate::rounding::lemma_nearest_monotonic(n * unit(), 1, pow2(1138) * 1, 1);
}

/// Every power of two up to 2^2098 is a binary64 magnitude.
pub proof fn lemma_power_is_magnitude(i: nat)
    requires
        i <= 2098,
    ensures
        crate::rounding::is_magnitude(pow2(i)),
{
    lemma_powers_of_two();
    lemma_pow2_adds(52, 2046);
    assert(infinity_magnitude() == pow2(2098));
    if i < 2098 {
        lemma_pow2_strictly_increases(i, 2098);
    }
    assert(1 * pow2(i) == pow2(i)) by (nonlinear_arith);
    crate::rounding::lemma_shifted_is_magnitude(1, i);
}

/// The binary64 quotient of two finite numbers that are not negative, the
/// divisor not zero, for scales that are not too far apart.
pub(crate) fn divide(x: Binary64, y: Binary64) -> (r: Binary64)
    requires
        x.is_finite(),
        y.is_finite(),
        y.magnitude() > 0,
        x.magnitude() > 0 ==> -900 <= x.scale() - y.scale() <= 800,
    ensures
        !r.is_negative(),
        r.is_finite(),
        r.magnitude() == quotient(x.magnitude(), y.magnitude()),
{
    let (mx, sx) = decode(x);
    let (my, sy) = decode(y);
    proof {
        assert(my > 0) by (nonlinear_arith)
            requires
                my * pow2(sy as nat) > 0,
                my >= 0,
        ;
    }
    proof {
        lemma_pow2_pos(sx as nat);
        assert(mx > 0 ==> x.magnitude() > 0) by (nonlinear_arith)
            requires
                x.magnitude() == mx * pow2(sx as nat),
                pow2(sx as nat) > 0,
        ;
    }
    if mx == 0 {
        proof {
            assert(x.magnitude() == 0) by (nonlinear_arith)
                requires
                    x.magnitude() == mx * pow2(sx as nat),
                    mx == 0,
            ;
            assert(x.magnitude() * unit() == 0) by (nonlinear_arith)
                requires
                    x.magnitude() == 0,
            ;
            lemma_nearest_of_zero(y.magnitude());
        }
        return Binary64::zero();
    }
    let e: i32 = sx as i32 - sy as i32;
    let r = round_ratio(mx as u128, my, e);
    proof {
        // x / y = (mx * 2^(e + 1074)) / my, after 2^sy is cancelled
        let c = pow2(sy as nat);
        let n = (mx as nat) * pow2((e + 1074) as nat);
        lemma_pow2_pos(sy as nat);
        lemma_pow2_adds((e + 1074) as nat, sy as nat);
        lemma_pow2_adds(sx as nat, 1074);
        assert(x.magnitude() * unit() == n * c) by (nonlinear_arith)
            requires
                x.magnitude() == mx * pow2(sx as nat),
                unit() == pow2(1074),
                pow2(sx as nat) * pow2(1074) == pow2((e + 1074) as nat) * c,
                n == (mx as nat) * pow2((e + 1074) as nat),
        ;
        assert(y.magnitude() == (my as nat) * c);
        crate::rounding::lemma_nearest_magnitude_scale(n, my as nat, c);
    }
    r
}

/// Two to the power `k`.
pub(crate) fn power_of_two(k: u32) -> (r: u128)
    requires
        k <= 127,
    ensures
        r == pow2(k as nat),
{
    let mut r: u128 = 1;
    let mut i: u32 = 0;
    proof {
        lemma_powers_of_two();
    }
    while i < k
        invariant
            i <= k <= 127,
            r == pow2(i as nat),
        decreases k - i,
    {
        proof {
            lemma_pow2_unfold((i + 1) as nat);
            lemma_powers_of_two();
            if i + 1 < 127 {
                lemma_pow2_strictly_increases((i + 1) as nat, 127);
            }
        }
        r = r * 2;
        i = i + 1;
    }
    r
}

/// The binary64 sum of two finite numbers that are not negative, for scales
/// that are not too far apart.
pub(crate) fn plus(x: Binary64, y: Binary64) -> (r: Binary64)
    requires
        x.is_finite(),
        y.is_finite(),
        x.magnitude() > 0 ==> 174 <= x.scale() <= 1874,
        y.magnitude() > 0 ==> 174 <= y.scale() <= 1874,
        x.magnitude() > 0 && y.magnitude() > 0 ==> -70 <= x.scale() - y.scale() <= 70,
    ensures
        !r.is_negative(),
        r.is_finite(),
        r.magnitude() == sum(x.magnitude(), y.magnitude()),
{
    let (mx, sx) = decode(x);
    let (my, sy) = decode(y);
    proof {
        lemma_pow2_pos(sx as nat);
        lemma_pow2_pos(sy as nat);
        assert(mx == 0 ==> x.magnitude() == 0) by (nonlinear_arith)
            requires
                x.magnitude() == mx * pow2(sx as nat),
        ;
        assert(my == 0 ==> y.magnitude() == 0) by (nonlinear_arith)
            requires
                y.magnitude() == my * pow2(sy as nat),
        ;
        assert(mx > 0 ==> x.magnitude() > 0) by (nonlinear_arith)
            requires
                x.magnitude() == mx * pow2(sx as nat),
                pow2(sx as nat) > 0,
        ;
        assert(my > 0 ==> y.magnitude() > 0) by (nonlinear_arith)
            requires
                y.magnitude() == my * pow2(sy as nat),
                pow2(sy as nat) > 0,
        ;
    }
    if mx == 0 && my == 0 {
        proof {
            lemma_nearest_of_zero(1);
        }
        return Binary64::zero();
    }
    let base: u32 = if mx == 0 {
        sy
    } else if my == 0 {
        sx
    } else if sx < sy {
        sx
    } else {
        sy
    };
    let px: u128 = if mx == 0 {
        0
    } else {
        power_of_two(sx - base)
    };
    let py: u128 = if my == 0 {
        0
    } else {
        power_of_two(sy - base)
    };
    proof {
        lemma_powers_of_two();
        if mx > 0 {
            if sx - base < 70 {
                lemma_pow2_strictly_increases((sx - base) as nat, 70);
            }
            assert(mx * px < 0x0800_0000_0000_0000_0000_0000_0000_0000) by (nonlinear_arith)
                requires
                    mx < 0x0020_0000_0000_0000,
                    px <= 0x40_0000_0000_0000_0000,
            ;
        }
        if my > 0 {
            if sy - base < 70 {
                lemma_pow2_strictly_increases((sy - base) as nat, 70);
            }
            assert(my * py < 0x0800_0000_0000_0000_0000_0000_0000_0000) by (nonlinear_arith)
                requires
                    my < 0x0020_0000_0000_0000,
                    py <= 0x40_0000_0000_0000_0000,
            ;
        }
    }
    let n: u128 = (mx as u128) * px + (my as u128) * py;
    proof {
        if mx > 0 {
            lemma_pow2_pos((sx - base) as nat);
        }
        if my > 0 {
            lemma_pow2_pos((sy - base) as nat);
        }
        assert(n > 0) by (nonlinear_arith)
            requires
                n == mx * px + my * py,
                mx > 0 ==> px > 0,
                my > 0 ==> py > 0,
                mx > 0 || my > 0,
                mx >= 0,
                my >= 0,
                px >= 0,
                py >= 0,
        ;
    }
    let r = round_ratio(n, 1, base as i32 - 1074);
    proof {
        let pb = pow2(base as nat);
        if mx > 0 {
            lemma_pow2_adds((sx - base) as nat, base as nat);
        }
        if my > 0 {
            lemma_pow2_adds((sy - base) as nat, base as nat);
        }
        assert(x.magnitude() == (mx * px) * pb) by (nonlinear_arith)
            requires
                x.magnitude() == mx * pow2(sx as nat),
                mx > 0 ==> pow2(sx as nat) == px * pb,
        ;
        assert(y.magnitude() == (my * py) * pb) by (nonlinear_arith)
            requires
                y.magnitude() == my * pow2(sy as nat),
                my > 0 ==> pow2(sy as nat) == py * pb,
        ;
        assert((n as nat) * pb == x.magnitude() + y.magnitude()) by (nonlinear_arith)
            requires
                n == mx * px + my * py,
                x.magnitude() == (mx * px) * pb,
                y.magnitude() == (my * py) * pb,
        ;
    }
    r
}

/// Every binary64 magnitude is the magnitude of a number: of the positive
/// number that `Binary64::positive` gives for it.
pub proof fn lemma_positive_has_magnitude(m: nat)
    requires
        crate::rounding::is_magnitude(m),
    ensures
        Binary64::positive(m).magnitude() == m,
        !Binary64::positive(m).is_negative(),
        !Binary64::positive(m).spec_is_nan(),
{
    lemma_powers_of_two();
    let x = Binary64::positive(m);
    if m < 2 * HIDDEN_BIT {
        assert(x.bits == m);
        assert(x.magnitude() == m) by (nonlinear_arith)
            requires
                x.magnitude() == x.significand() * pow2(x.scale()),
                x.significand() == m,
                pow2(x.scale()) == 1,
        ;
    } else {
        assert(bit_length(m) >= 54) by {
            crate::rounding::lemma_bit_length_bounds(m);
            if bit_length(m) < 54 {
                if bit_length(m) < 53 {
                    lemma_pow2_strictly_increases(bit_length(m), 53);
                }
            }
        }
        let sh = (bit_length(m) - 53) as nat;
        let p = pow2(sh);
        let top = m / p;
        lemma_pow2_pos(sh);
        crate::rounding::lemma_spacing_bounds(m);
        lemma_fundamental_div_mod(m as int, p as int);
        assert(m == top * p);
        assert(HIDDEN_BIT <= top < SIGNIFICAND_LIMIT) by (nonlinear_arith)
            requires
                m == top * p,
                HIDDEN_BIT * p <= m < SIGNIFICAND_LIMIT * p,
                p > 0,
        ;
        // the magnitude is at most infinity, so the shift is at most 2046
        if sh > 2046 {
            lemma_pow2_strictly_increases(2046, sh);
            assert(m > infinity_magnitude()) by (nonlinear_arith)
                requires
                    HIDDEN_BIT * p <= m,
                    infinity_magnitude() == HIDDEN_BIT * pow2(2046),
                    p > pow2(2046),
            ;
        }
        assert(sh <= 2046);
        if sh == 2046 {
            assert(top == HIDDEN_BIT) by (nonlinear_arith)
                requires
                    m == top * p,
                    m <= HIDDEN_BIT * p,
                    top >= HIDDEN_BIT,
                    p > 0,
            ;
        }
        let bits = sh * HIDDEN_BIT + top;
        assert(bits < 0x8000_0000_0000_0000) by (nonlinear_arith)
            requires
                bits == sh * HIDDEN_BIT + top,
                sh <= 2046,
                top < 2 * HIDDEN_BIT,
                HIDDEN_BIT == 0x0010_0000_0000_0000,
        ;
        assert(x.bits == bits);
        assert(bits == (sh + 1) * HIDDEN_BIT + (top - HIDDEN_BIT)) by (nonlinear_arith)
            requires
                bits == sh * HIDDEN_BIT + top,
        ;
        lemma_fundamental_div_mod_converse(
            bits as int,
            HIDDEN_BIT as int,
            (sh + 1) as int,
            (top - HIDDEN_BIT) as int,
        );
        assert(x.biased_exponent() == sh + 1);
        assert(x.fraction() == top - HIDDEN_BIT);
        assert(x.significand() == top);
        assert(x.scale() == sh);
    }
}

} // verus!
