//! The cache model: how many hits go with a number of misses at an assumed hit
//! rate.
//!
//! With `misses` requests that missed the cache and a hit rate `r`, there were
//! `misses / (1 - r)` requests in all, and `misses / (1 - r) - misses` of them
//! were hits. The model computes this in binary64 arithmetic, operation by
//! operation, and rounds the result up to a whole number.

use vstd::prelude::*;
use vstd::arithmetic::power2::{pow2, lemma_pow2_pos, lemma_pow2_unfold, lemma_pow2_adds, lemma_pow2_strictly_increases};
use vstd::arithmetic::div_mod::{lemma_fundamental_div_mod, lemma_fundamental_div_mod_converse};
use crate::binary64::Binary64;
use crate::arithmetic::{decode, difference, divide, from_integer, power_of_two, quotient, round_ratio, unit, lemma_from_integer_bounds, lemma_magnitude_is_magnitude, lemma_magnitude_range, lemma_nearest_of_zero, lemma_powers_of_two, lemma_power_is_magnitude, lemma_scale_range};
use crate::rounding::{bit_length, is_magnitude, nearest_magnitude, round_half_even, spacing, lemma_bit_length_bounds, lemma_bit_length_shift, lemma_bit_length_unique, lemma_nearest_between, lemma_nearest_of_magnitude, lemma_shifted_is_magnitude};

verus! {

/// The encoding of 1.0.
pub const ONE_BITS: u64 = 0x3ff0_0000_0000_0000;

/// The smallest whole number that is not below a magnitude given in units of
/// 2^-1074.
pub open spec fn ceiling(magnitude: nat) -> nat {
    ((magnitude + unit() - 1) / (unit() as int)) as nat
}

/// A whole number as a `u64` holds it: what is too large becomes `u64::MAX`.
pub open spec fn clamp_to_u64(n: nat) -> nat {
    if n > u64::MAX {
        u64::MAX as nat
    } else {
        n
    }
}

/// The number of cache hits that go with `misses` cache misses at a hit rate
/// of magnitude `rate`, below one: `misses / (1 - rate) - misses` in binary64
/// arithmetic, rounded up to a whole number.
pub open spec fn simulated_hits(misses: nat, rate: nat) -> nat {
    let missed = from_integer(misses);
    let requests = quotient(missed, difference(unit(), rate));
    clamp_to_u64(ceiling(difference(requests, missed)))
}

/// The number one.
pub open spec fn one() -> Binary64 {
    Binary64 { bits: ONE_BITS }
}

/// The hit rates that the cache model takes: the numbers from zero up to, but
/// not including, one.
pub open spec fn valid_hit_rate(rate: Binary64) -> bool {
    (Binary64 { bits: 0 }).spec_le(rate) && rate.spec_lt(one())
}

/// A valid hit rate is finite, and its magnitude is below that of one; it is
/// negative only as the negative zero.
pub proof fn lemma_valid_hit_rate(rate: Binary64)
    requires
        valid_hit_rate(rate),
    ensures
        rate.is_finite(),
        rate.magnitude() < unit(),
        rate.value() == rate.magnitude(),
{
    lemma_one();
    crate::binary64::lemma_magnitude_zero(Binary64 { bits: 0 });
    if !rate.is_finite() {
        crate::binary64::lemma_magnitude_of_infinity(rate);
        crate::binary64::lemma_magnitude_bound(one());
    }
}

/// The number one has the magnitude `unit()`.
pub proof fn lemma_one()
    ensures
        one().magnitude() == unit(),
        one().is_finite(),
        !one().is_negative(),
        unit() > 0,
        is_magnitude(unit()),
        nearest_magnitude(unit(), 1) == unit(),
{
    lemma_powers_of_two();
    lemma_pow2_adds(52, 1022);
    lemma_pow2_pos(1074);
    let one = Binary64 { bits: ONE_BITS };
    assert(one.biased_exponent() == 1023);
    assert(one.fraction() == 0);
    lemma_power_is_magnitude(1074);
    lemma_nearest_of_magnitude(unit(), 1);
    assert(unit() * 1 == unit()) by (nonlinear_arith);
}

/// A whole number converts to a whole number.
pub proof fn lemma_from_integer_whole(n: nat)
    requires
        n <= u64::MAX,
    ensures
        from_integer(n) % unit() == 0,
{
    lemma_one();
    let u = unit();
    let x = n * u;
    if n == 0 {
        assert(x == 0) by (nonlinear_arith)
            requires
                x == n * u,
                n == 0,
        ;
        lemma_nearest_of_zero(1);
    } else {
        lemma_from_integer_bounds(n);
        lemma_bit_length_shift(n, 1074, 0);
        lemma_bit_length_bounds(n);
        assert(x / 1 == x);
        if bit_length(n) <= 53 {
            if bit_length(n) < 53 {
                lemma_pow2_strictly_increases(bit_length(n), 53);
            }
            lemma_powers_of_two();
            lemma_pow2_adds(53, 1074);
            lemma_pow2_adds(52, 2046);
            lemma_pow2_strictly_increases(1127, 2098);
            assert(x < pow2(53) * u) by (nonlinear_arith)
                requires
                    x == n * u,
                    n < pow2(53),
                    u > 0,
            ;
            lemma_shifted_is_magnitude(n, 1074);
            lemma_nearest_of_magnitude(x, 1);
            assert(x * 1 == x) by (nonlinear_arith);
            lemma_fundamental_div_mod_converse(x as int, u as int, n as int, 0);
        } else {
            let j = spacing(x);
            assert(j == bit_length(n) + 1074 - 53);
            let e = round_half_even(x, 1 * pow2(j));
            let rounded = e * pow2(j);
            lemma_powers_of_two();
            lemma_pow2_adds(52, 2046);
            lemma_pow2_strictly_increases(1138, 2098);
            assert(from_integer(n) == rounded);
            lemma_pow2_adds((j - 1074) as nat, 1074);
            let top = e * pow2((j - 1074) as nat);
            assert(rounded == top * u) by (nonlinear_arith)
                requires
                    rounded == e * pow2(j),
                    pow2(j) == pow2((j - 1074) as nat) * u,
                    top == e * pow2((j - 1074) as nat),
            ;
            lemma_fundamental_div_mod_converse(rounded as int, u as int, top as int, 0);
        }
    }
}

/// One minus a number that is so small that the difference rounds to one.
proof fn lemma_one_minus_tiny(x: nat)
    requires
        0 < x < pow2(1006),
    ensures
        difference(unit(), x) == unit(),
{
    lemma_one();
    let u = unit();
    let y = (u - x) as nat;
    let grid = pow2(1021);
    lemma_powers_of_two();
    lemma_pow2_pos(1021);
    lemma_pow2_unfold(1074);
    lemma_pow2_strictly_increases(1006, 1020);
    lemma_pow2_unfold(1021);
    lemma_pow2_strictly_increases(1020, 1073);
    lemma_pow2_adds(53, 1021);
    lemma_pow2_adds(52, 2046);
    lemma_pow2_strictly_increases(1074, 2098);
    lemma_bit_length_unique(y, 1074);
    assert(y / 1 == y);
    assert(spacing(y) == 1021);
    let q = (pow2(53) - 1) as int;
    let r = (grid - x) as int;
    assert(y == q * grid + r) by (nonlinear_arith)
        requires
            y == u - x,
            u == pow2(53) * grid,
            q == pow2(53) - 1,
            r == grid - x,
    ;
    lemma_fundamental_div_mod_converse(y as int, grid as int, q, r);
    assert(1 * grid == grid) by (nonlinear_arith);
    assert(round_half_even(y, 1 * grid) == pow2(53));
}

/// One minus a number that is not negative and below one.
pub(crate) fn one_minus(x: Binary64) -> (r: Binary64)
    requires
        x.is_finite(),
        x.magnitude() < unit(),
    ensures
        !r.is_negative(),
        r.is_finite(),
        r.magnitude() == difference(unit(), x.magnitude()),
        pow2(1021) <= r.magnitude() <= unit(),
{
    let (m, s) = decode(x);
    let one = Binary64::from_bits(ONE_BITS);
    proof {
        lemma_one();
        lemma_powers_of_two();
        lemma_pow2_pos(s as nat);
        lemma_pow2_strictly_increases(1021, 1074);
        // a number below one has a scale of at most 1021
        lemma_magnitude_range(x);
        if s > 1021 {
            if 52 + s > 1074 {
                lemma_pow2_strictly_increases(1074, (52 + s) as nat);
            }
        }
        assert(s <= 1021);
    }
    if m == 0 {
        proof {
            assert(x.magnitude() == 0) by (nonlinear_arith)
                requires
                    x.magnitude() == m * pow2(s as nat),
                    m == 0,
            ;
        }
        return one;
    }
    proof {
        // the largest binary64 below one is one minus 2^-53
        let xm = x.magnitude();
        let ps = pow2(s as nat);
        lemma_power_is_magnitude(1021);
        lemma_pow2_unfold(1074);
        lemma_pow2_strictly_increases(1021, 1073);
        if s >= 1021 {
            lemma_pow2_adds((1074 - s) as nat, s as nat);
            let p = pow2((1074 - s) as nat);
            if s > 1021 {
                lemma_pow2_strictly_increases(1021, s as nat);
            }
            assert(m < p) by (nonlinear_arith)
                requires
                    m * ps < p * ps,
                    ps > 0,
            ;
            assert(xm <= unit() - ps) by (nonlinear_arith)
                requires
                    xm == m * ps,
                    m + 1 <= p,
                    unit() == p * ps,
            ;
        } else {
            lemma_pow2_adds(53, 1020);
            if s < 1020 {
                lemma_pow2_strictly_increases(s as nat, 1020);
            }
            assert(xm < pow2(53) * pow2(1020)) by (nonlinear_arith)
                requires
                    xm == m * ps,
                    m < pow2(53),
                    0 < ps <= pow2(1020),
            ;
        }
        assert(pow2(1021) * 1 <= (unit() - xm) as nat <= unit() * 1) by (nonlinear_arith)
            requires
                pow2(1021) <= unit() - xm,
                xm >= 0,
        ;
        lemma_nearest_between((unit() - xm) as nat, 1, pow2(1021), unit());
    }
    if s >= 954 {
        let p: u128 = power_of_two(1074 - s);
        proof {
            let ps = pow2(s as nat);
            lemma_pow2_adds((1074 - s) as nat, s as nat);
            assert(m < p) by (nonlinear_arith)
                requires
                    m * ps < p * ps,
                    ps > 0,
            ;
        }
        let n: u128 = p - m as u128;
        let r = round_ratio(n, 1, s as i32 - 1074);
        proof {
            let ps = pow2(s as nat);
            assert((n as nat) * ps == (unit() - x.magnitude()) as nat) by (nonlinear_arith)
                requires
                    n == p - m,
                    unit() == p * ps,
                    x.magnitude() == m * ps,
            ;
        }
        r
    } else {
        proof {
            let ps = pow2(s as nat);
            lemma_pow2_adds(53, 953);
            if s < 953 {
                lemma_pow2_strictly_increases(s as nat, 953);
            }
            assert(0 < x.magnitude() < pow2(53) * pow2(953)) by (nonlinear_arith)
                requires
                    x.magnitude() == m * ps,
                    0 < m < pow2(53),
                    0 < ps <= pow2(953),
            ;
            lemma_one_minus_tiny(x.magnitude());
        }
        one
    }
}

/// The whole number that a finite binary64 holds, if it holds one that is not
/// above 2^64.
fn whole_part(y: Binary64) -> (r: u128)
    requires
        y.is_finite(),
        y.magnitude() % unit() == 0,
        y.magnitude() <= pow2(1138),
    ensures
        r * unit() == y.magnitude(),
        r <= 0x1_0000_0000_0000_0000u128,
{
    let (m, s) = decode(y);
    proof {
        lemma_one();
        lemma_powers_of_two();
        lemma_pow2_pos(s as nat);
        lemma_pow2_adds(64, 1074);
    }
    let ghost w: nat = y.magnitude() / unit();
    proof {
        lemma_fundamental_div_mod(y.magnitude() as int, unit() as int);
        assert(y.magnitude() == unit() * w);
        assert(w <= pow2(64)) by (nonlinear_arith)
            requires
                unit() * w <= pow2(64) * unit(),
                unit() > 0,
        ;
    }
    if m == 0 {
        proof {
            assert(y.magnitude() == 0) by (nonlinear_arith)
                requires
                    y.magnitude() == m * pow2(s as nat),
                    m == 0,
            ;
            assert(0 * unit() == 0) by (nonlinear_arith);
        }
        return 0;
    }
    proof {
        // a positive whole number is at least one
        assert(w >= 1) by (nonlinear_arith)
            requires
                y.magnitude() == unit() * w,
                y.magnitude() == m * pow2(s as nat),
                m > 0,
                pow2(s as nat) > 0,
        ;
        assert(pow2(1074) <= y.magnitude()) by (nonlinear_arith)
            requires
                y.magnitude() == unit() * w,
                w >= 1,
                unit() == pow2(1074),
        ;
        lemma_scale_range(y, 1074, 1138);
    }
    if s >= 1074 {
        let p: u128 = power_of_two(s - 1074);
        proof {
            lemma_pow2_adds((s - 1074) as nat, 1074);
            if s - 1074 < 12 {
                lemma_pow2_strictly_increases((s - 1074) as nat, 12);
            }
            vstd::arithmetic::power2::lemma2_to64();
            assert(m * p < 0x0020_0000_0000_0000 * 0x1000) by (nonlinear_arith)
                requires
                    0 < m < 0x0020_0000_0000_0000,
                    0 < p <= 0x1000,
            ;
            assert((m * p) * unit() == y.magnitude()) by (nonlinear_arith)
                requires
                    y.magnitude() == m * pow2(s as nat),
                    pow2(s as nat) == p * unit(),
            ;
            assert(m * p == w) by (nonlinear_arith)
                requires
                    (m * p) * unit() == unit() * w,
                    unit() > 0,
            ;
        }
        (m as u128) * p
    } else {
        let p: u128 = power_of_two(1074 - s);
        proof {
            lemma_pow2_adds((1074 - s) as nat, s as nat);
            lemma_pow2_pos((1074 - s) as nat);
            let ps = pow2(s as nat);
            assert(m == w * p) by (nonlinear_arith)
                requires
                    m * ps == (p * ps) * w,
                    ps > 0,
            ;
            lemma_fundamental_div_mod_converse(m as int, p as int, w as int, 0);
        }
        (m as u128) / p
    }
}

/// The binary64 difference of two finite numbers, the second a whole number
/// that is not above the first.
pub(crate) fn minus_whole(x: Binary64, y: Binary64) -> (r: Binary64)
    requires
        x.is_finite(),
        y.is_finite(),
        y.magnitude() % unit() == 0,
        y.magnitude() <= x.magnitude(),
        y.magnitude() <= pow2(1138),
        x.magnitude() <= pow2(1191),
    ensures
        !r.is_negative(),
        r.is_finite(),
        r.magnitude() == difference(x.magnitude(), y.magnitude()),
{
    let (m, s) = decode(x);
    let whole: u128 = whole_part(y);
    proof {
        lemma_one();
        lemma_powers_of_two();
        lemma_pow2_pos(s as nat);
        lemma_nearest_of_zero(1);
    }
    if m == 0 {
        proof {
            assert(x.magnitude() == 0) by (nonlinear_arith)
                requires
                    x.magnitude() == m * pow2(s as nat),
                    m == 0,
            ;
        }
        return Binary64::zero();
    }
    if s >= 1074 {
        proof {
            lemma_magnitude_range(x);
            if 52 + s > 1191 {
                lemma_pow2_strictly_increases(1191, (52 + s) as nat);
            }
            assert(s <= 1139);
        }
        let p: u128 = power_of_two(s - 1074);
        proof {
            lemma_pow2_adds((s - 1074) as nat, 1074);
            if s - 1074 < 65 {
                lemma_pow2_strictly_increases((s - 1074) as nat, 65);
            }
            lemma_pow2_adds(64, 1);
            vstd::arithmetic::power2::lemma2_to64();
            assert(m * p < 0x0020_0000_0000_0000 * 0x2_0000_0000_0000_0000) by (nonlinear_arith)
                requires
                    0 < m < 0x0020_0000_0000_0000,
                    0 < p <= 0x2_0000_0000_0000_0000,
            ;
            assert((m * p) * unit() == x.magnitude()) by (nonlinear_arith)
                requires
                    x.magnitude() == m * pow2(s as nat),
                    pow2(s as nat) == p * unit(),
            ;
            assert(whole <= m * p) by (nonlinear_arith)
                requires
                    whole * unit() <= (m * p) * unit(),
                    unit() > 0,
            ;
        }
        let n: u128 = (m as u128) * p - whole;
        if n == 0 {
            return Binary64::zero();
        }
        let r = round_ratio(n, 1, 0);
        proof {
            assert((n as nat) * pow2(1074) == (x.magnitude() - y.magnitude()) as nat) by (nonlinear_arith)
                requires
                    n == m * p - whole,
                    (m * p) * unit() == x.magnitude(),
                    whole * unit() == y.magnitude(),
                    unit() == pow2(1074),
            ;
        }
        r
    } else {
        if whole == 0 {
            // nothing is taken away, and the first number is returned as it is
            proof {
                assert(0 * unit() == 0) by (nonlinear_arith);
                lemma_magnitude_is_magnitude(x);
                lemma_nearest_of_magnitude(x.magnitude(), 1);
                assert(x.magnitude() * 1 == x.magnitude()) by (nonlinear_arith);
            }
            return Binary64::from_bits(x.bits % crate::binary64::SIGN_BIT);
        }
        proof {
            // the first number is at least one, so its scale is at least 1022
            assert(y.magnitude() >= unit()) by (nonlinear_arith)
                requires
                    whole * unit() == y.magnitude(),
                    whole >= 1,
                    unit() > 0,
            ;
            lemma_magnitude_range(x);
            lemma_pow2_strictly_increases(52, 1074);
            if 53 + s < 1074 {
                lemma_pow2_strictly_increases((53 + s) as nat, 1074);
            }
            assert(s >= 1022);
        }
        let p: u128 = power_of_two(1074 - s);
        proof {
            let ps = pow2(s as nat);
            lemma_pow2_adds((1074 - s) as nat, s as nat);
            lemma_pow2_pos((1074 - s) as nat);
            assert((whole * p) * ps == y.magnitude()) by (nonlinear_arith)
                requires
                    whole * unit() == y.magnitude(),
                    unit() == p * ps,
            ;
            assert(whole * p <= m) by (nonlinear_arith)
                requires
                    (whole * p) * ps <= m * ps,
                    ps > 0,
            ;
        }
        let n: u128 = m as u128 - whole * p;
        if n == 0 {
            return Binary64::zero();
        }
        let r = round_ratio(n, 1, s as i32 - 1074);
        proof {
            let ps = pow2(s as nat);
            assert((n as nat) * ps == (x.magnitude() - y.magnitude()) as nat) by (nonlinear_arith)
                requires
                    n == m - whole * p,
                    x.magnitude() == m * ps,
                    (whole * p) * ps == y.magnitude(),
            ;
        }
        r
    }
}

/// A finite number that is not negative, rounded up to a whole number, as a
/// `u64` holds it.
pub(crate) fn ceiling_to_u64(z: Binary64) -> (r: u64)
    requires
        z.is_finite(),
    ensures
        r == clamp_to_u64(ceiling(z.magnitude())),
{
    let (m, s) = decode(z);
    proof {
        lemma_one();
        lemma_powers_of_two();
        lemma_pow2_pos(s as nat);
    }
    let ghost u = unit() as int;
    let ghost mag = z.magnitude() as int;
    if s >= 1074 {
        if m == 0 {
            proof {
                assert(mag == 0) by (nonlinear_arith)
                    requires
                        mag == m * pow2(s as nat),
                        m == 0,
                ;
                lemma_fundamental_div_mod_converse(u - 1, u, 0, u - 1);
            }
            return 0;
        }
        proof {
            assert(z.biased_exponent() >= 1);
            lemma_pow2_adds((s - 1074) as nat, 1074);
        }
        if s - 1074 >= 12 {
            proof {
                // at least 2^52 * 2^12 whole units
                let p = pow2((s - 1074) as nat) as int;
                lemma_pow2_adds(52, 12);
                vstd::arithmetic::power2::lemma2_to64();
                if s - 1074 > 12 {
                    lemma_pow2_strictly_increases(12, (s - 1074) as nat);
                }
                let whole = m * p;
                assert(whole >= 0x1_0000_0000_0000_0000) by (nonlinear_arith)
                    requires
                        whole == m * p,
                        m >= 0x0010_0000_0000_0000,
                        p >= 0x1000,
                ;
                assert(mag + u - 1 == whole * u + (u - 1)) by (nonlinear_arith)
                    requires
                        mag == m * pow2(s as nat),
                        pow2(s as nat) == p * u,
                        whole == m * p,
                ;
                lemma_fundamental_div_mod_converse(mag + u - 1, u, whole, u - 1);
            }
            return u64::MAX;
        }
        let wide: u128 = power_of_two(s - 1074);
        proof {
            vstd::arithmetic::power2::lemma2_to64();
            if s - 1074 < 11 {
                lemma_pow2_strictly_increases((s - 1074) as nat, 11);
            }
        }
        let p: u64 = wide as u64;
        proof {
            vstd::arithmetic::power2::lemma2_to64();
            assert(m * p < 0x0020_0000_0000_0000 * 0x800) by (nonlinear_arith)
                requires
                    0 < m < 0x0020_0000_0000_0000,
                    0 < p <= 0x800,
            ;
            let whole = (m * p) as int;
            assert(mag + u - 1 == whole * u + (u - 1)) by (nonlinear_arith)
                requires
                    mag == m * pow2(s as nat),
                    pow2(s as nat) == p * u,
                    whole == m * p,
            ;
            lemma_fundamental_div_mod_converse(mag + u - 1, u, whole, u - 1);
        }
        m * p
    } else if 1074 - s >= 64 {
        proof {
            // below one: the significand has fewer than 64 bits
            let c = pow2(s as nat) as int;
            let d = pow2((1074 - s) as nat) as int;
            lemma_pow2_adds((1074 - s) as nat, s as nat);
            if 1074 - s > 64 {
                lemma_pow2_strictly_increases(64, (1074 - s) as nat);
            }
            if m == 0 {
                assert(mag == 0) by (nonlinear_arith)
                    requires
                        mag == m * c,
                        m == 0,
                ;
                lemma_fundamental_div_mod_converse(u - 1, u, 0, u - 1);
            } else {
                let rest = (m - 1) * c + (c - 1);
                assert(mag + u - 1 == 1 * u + rest) by (nonlinear_arith)
                    requires
                        mag == m * c,
                        rest == (m - 1) * c + (c - 1),
                ;
                assert(0 <= rest < u) by (nonlinear_arith)
                    requires
                        rest == (m - 1) * c + (c - 1),
                        1 <= m < d,
                        c >= 1,
                        u == d * c,
                ;
                lemma_fundamental_div_mod_converse(mag + u - 1, u, 1, rest);
            }
        }
        if m == 0 {
            0
        } else {
            1
        }
    } else {
        let wide: u128 = power_of_two(1074 - s);
        proof {
            if 1074 - s < 63 {
                lemma_pow2_strictly_increases((1074 - s) as nat, 63);
            }
            lemma_pow2_pos((1074 - s) as nat);
        }
        let d: u64 = wide as u64;
        let q: u64 = (m + (d - 1)) / d;
        proof {
            let c = pow2(s as nat) as int;
            lemma_pow2_adds((1074 - s) as nat, s as nat);
            let t = (m + (d - 1)) as int;
            let rem = t % (d as int);
            lemma_fundamental_div_mod(t, d as int);
            let rest = rem * c + (c - 1);
            assert(mag + u - 1 == q * u + rest) by (nonlinear_arith)
                requires
                    mag == m * c,
                    u == d * c,
                    t == m + (d - 1),
                    t == d * q + rem,
                    rest == rem * c + (c - 1),
            ;
            assert(0 <= rest < u) by (nonlinear_arith)
                requires
                    rest == rem * c + (c - 1),
                    0 <= rem,
                    rem + 1 <= d,
                    c >= 1,
                    u == d * c,
            ;
            lemma_fundamental_div_mod_converse(mag + u - 1, u, q as int, rest);
        }
        q
    }
}

/// The number of cache hits that go with `misses` cache misses at an assumed
/// hit rate that is not negative and below one.
pub fn hits_for(misses: u64, rate: Binary64) -> (r: u64)
    requires
        valid_hit_rate(rate),
    ensures
        r == simulated_hits(misses as nat, rate.magnitude()),
{
    proof {
        lemma_valid_hit_rate(rate);
    }
    let missed = Binary64::from_u64(misses);
    let hit_free = one_minus(rate);
    proof {
        lemma_one();
        lemma_powers_of_two();
        lemma_pow2_pos(1021);
        lemma_nearest_of_zero(1);
        assert(0 * unit() == 0) by (nonlinear_arith);
        lemma_scale_range(hit_free, 1021, 1074);
        if misses > 0 {
            lemma_from_integer_bounds(misses as nat);
            lemma_scale_range(missed, 1074, 1138);
        }
    }
    let requests = divide(missed, hit_free);
    proof {
        // between the misses and 2^53 times the misses
        let m = missed.magnitude();
        let h = hit_free.magnitude();
        lemma_from_integer_whole(misses as nat);
        if misses > 0 {
            lemma_magnitude_is_magnitude(missed);
            lemma_power_is_magnitude(1191);
            lemma_power_is_magnitude(1138);
            lemma_pow2_adds(1138, 1074);
            lemma_pow2_adds(1191, 1021);
            assert(m * h <= m * unit()) by (nonlinear_arith)
                requires
                    h <= unit(),
                    m >= 0,
            ;
            assert(m * unit() <= pow2(1191) * h) by (nonlinear_arith)
                requires
                    m <= pow2(1138),
                    h >= pow2(1021),
                    pow2(1138) * unit() == pow2(1191) * pow2(1021),
                    unit() >= 0,
            ;
            lemma_nearest_between(m * unit(), h, m, pow2(1191));
        } else {
            assert(m == 0);
            assert(m * unit() == 0) by (nonlinear_arith)
                requires
                    m == 0,
            ;
            lemma_nearest_of_zero(h);
            lemma_pow2_pos(1138);
            lemma_pow2_pos(1191);
        }
    }
    let hits = minus_whole(requests, missed);
    ceiling_to_u64(hits)
}

} // verus!
