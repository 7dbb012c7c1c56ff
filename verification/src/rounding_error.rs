//! How far rounding to the nearest binary64 moves a number, and where the
//! numbers lie that round to a given one.

use vstd::prelude::*;
use vstd::arithmetic::power2::{pow2, lemma_pow2_pos, lemma_pow2_unfold, lemma_pow2_adds, lemma_pow2_strictly_increases};
use vstd::arithmetic::div_mod::{lemma_fundamental_div_mod, lemma_fundamental_div_mod_converse};
use crate::binary64::infinity_magnitude;
use crate::rounding::{bit_length, is_magnitude, nearest_magnitude, round_half_even, spacing, lemma_bit_length_bounds, lemma_bit_length_unique, lemma_nearest_monotonic, lemma_nearest_of_magnitude, lemma_shifted_is_magnitude, lemma_spacing_bounds};

verus! {

/// The largest power of two whose numbers the lemmas of this module take: it
/// leaves room below infinity.
pub open spec fn in_range(j: nat) -> bool {
    1 <= j <= 2000
}

/// 2^(54 + j) is below infinity for the `j` in range.
proof fn lemma_below_infinity(j: nat)
    requires
        in_range(j),
    ensures
        pow2(54 + j) < infinity_magnitude(),
        pow2(53 + j) < pow2(54 + j),
        pow2(53 + j) == pow2(53) * pow2(j),
        pow2(52 + j) == pow2(52) * pow2(j),
        pow2(53) == 2 * pow2(52),
        pow2(j) > 0,
        pow2(j) == 2 * pow2((j - 1) as nat),
        pow2(52) > 0,
        pow2(53) > 0,
{
    lemma_pow2_pos(52);
    lemma_pow2_pos(53);
    vstd::arithmetic::power2::lemma2_to64();
    vstd::arithmetic::power2::lemma2_to64_rest();
    lemma_pow2_adds(52, 2046);
    lemma_pow2_strictly_increases(54 + j, 2098);
    lemma_pow2_strictly_increases(53 + j, 54 + j);
    lemma_pow2_adds(53, j);
    lemma_pow2_adds(52, j);
    lemma_pow2_pos(j);
    lemma_pow2_unfold(j);
}

/// Rounding a whole number of units that is below 2^(53 + j) moves it by at
/// most half of 2^j, and stays at or below 2^(53 + j). Where it moves the
/// number down by exactly that half, the result is an even multiple of 2^j.
pub proof fn lemma_rounding_error(x: nat, j: nat)
    requires
        in_range(j),
        x < pow2(53 + j),
    ensures
        2 * nearest_magnitude(x, 1) <= 2 * x + pow2(j),
        2 * x <= 2 * nearest_magnitude(x, 1) + pow2(j),
        nearest_magnitude(x, 1) <= pow2(53 + j),
        2 * x == 2 * nearest_magnitude(x, 1) + pow2(j) ==> nearest_magnitude(x, 1) % pow2(j) == 0 && (
        nearest_magnitude(x, 1) / pow2(j)) % 2 == 0,
{
    lemma_below_infinity(j);
    let p = pow2(j);
    let jx = spacing(x);
    let px = pow2(jx);
    lemma_pow2_pos(jx);
    assert(x / 1 == x);
    assert(1 * px == px) by (nonlinear_arith);
    // the spacing at x is at most 2^j
    if x > 0 {
        lemma_bit_length_bounds(x);
        if bit_length(x) > 53 + j {
            lemma_pow2_strictly_increases(53 + j, (bit_length(x) - 1) as nat);
        }
    } else {
        assert(bit_length(0) == 0);
    }
    assert(jx <= j);
    if jx < j {
        lemma_pow2_strictly_increases(jx, j);
    }
    assert(px <= p);
    let q = x / px;
    let rem = x % px;
    lemma_fundamental_div_mod(x as int, px as int);
    let e = round_half_even(x, px);
    let rounded = e * px;
    if e == q {
        assert(rounded == px * q) by (nonlinear_arith)
            requires
                rounded == e * px,
                e == q,
        ;
        assert(2 * rem <= px);
        assert(2 * x == 2 * rounded + 2 * rem);
    } else {
        assert(rounded == px * q + px) by (nonlinear_arith)
            requires
                rounded == e * px,
                e == q + 1,
        ;
        assert(2 * rem >= px);
        assert(2 * rounded == 2 * x + 2 * px - 2 * rem);
    }
    // the rounded number is at most 2^(53 + jx)
    if bit_length(x) >= 53 {
        lemma_spacing_bounds(x);
        lemma_pow2_adds(53, jx);
        if jx < j {
            lemma_pow2_strictly_increases(53 + jx, 53 + j);
        }
        assert(q < pow2(53)) by (nonlinear_arith)
            requires
                x == px * q + rem,
                rem >= 0,
                x < pow2(53) * px,
                px > 0,
        ;
        assert(rounded <= pow2(53) * px) by (nonlinear_arith)
            requires
                rounded == e * px,
                e <= pow2(53),
                px > 0,
        ;
    } else {
        assert(jx == 0);
        vstd::arithmetic::power2::lemma2_to64();
        assert(x < pow2(53)) by {
            if x > 0 {
                lemma_pow2_strictly_increases(bit_length(x), 53);
            }
        }
        assert(q == x && rem == 0);
        assert(rounded == x) by (nonlinear_arith)
            requires
                rounded == e * px,
                e == x,
                px == 1,
        ;
        lemma_pow2_strictly_increases(53, 53 + j);
    }
    assert(nearest_magnitude(x, 1) == rounded);
    if 2 * x == 2 * rounded + p {
        // moved down by half of 2^j: the spacing is 2^j, and it was a tie
        assert(e == q);
        assert(rounded == px * q) by (nonlinear_arith)
            requires
                rounded == e * px,
                e == q,
        ;
        assert(2 * rem == p);
        assert(px == p);
        lemma_fundamental_div_mod_converse(rounded as int, p as int, q as int, 0);
    }
}

/// A whole number of units that is at most half of 2^j above `b * 2^j`, for a
/// significand `b`, does not round to more than `b * 2^j`; where it is exactly
/// that half above, `b` has to be even.
pub proof fn lemma_rounds_to_at_most(x: nat, b: nat, j: nat)
    requires
        in_range(j),
        pow2(52) <= b <= pow2(53),
        2 * x <= 2 * (b * pow2(j)) + pow2(j),
        2 * x == 2 * (b * pow2(j)) + pow2(j) ==> b % 2 == 0,
    ensures
        nearest_magnitude(x, 1) <= b * pow2(j),
{
    lemma_below_infinity(j);
    let p = pow2(j);
    let big = b * p;
    assert(pow2(52) * p <= big <= pow2(53) * p) by (nonlinear_arith)
        requires
            big == b * p,
            pow2(52) <= b <= pow2(53),
            p > 0,
    ;
    assert(x / 1 == x);
    if x <= big {
        // b * 2^j is a binary64 magnitude
        if b < pow2(53) {
            lemma_shifted_is_magnitude(b, j);
        } else {
            lemma_pow2_unfold(j + 1);
            assert(big == pow2(52) * pow2(j + 1)) by (nonlinear_arith)
                requires
                    big == b * p,
                    b == 2 * pow2(52),
                    pow2(j + 1) == 2 * p,
            ;
            lemma_shifted_is_magnitude(pow2(52), j + 1);
        }
        lemma_nearest_of_magnitude(big, 1);
        assert(big * 1 == big) by (nonlinear_arith);
        assert(x * 1 <= big * 1) by (nonlinear_arith)
            requires
                x <= big,
        ;
        lemma_nearest_monotonic(x, 1, big, 1);
    } else if b < pow2(53) {
        let rem = (x - big) as nat;
        assert(x < pow2(53) * p) by (nonlinear_arith)
            requires
                2 * x <= 2 * big + p,
                big == b * p,
                b + 1 <= pow2(53),
                p > 0,
        ;
        lemma_bit_length_unique(x, 53 + j);
        assert(spacing(x) == j);
        assert(1 * p == p) by (nonlinear_arith);
        lemma_fundamental_div_mod_converse(x as int, p as int, b as int, rem as int);
        assert(round_half_even(x, p) == b);
    } else {
        let rem = (x - big) as nat;
        let wide = pow2(j + 1);
        lemma_pow2_unfold(j + 1);
        lemma_pow2_adds(53, j + 1);
        assert(big == pow2(52) * wide) by (nonlinear_arith)
            requires
                big == b * p,
                b == 2 * pow2(52),
                wide == 2 * p,
        ;
        assert(x < pow2(54 + j)) by (nonlinear_arith)
            requires
                2 * x <= 2 * big + p,
                big == pow2(52) * wide,
                pow2(54 + j) == (2 * pow2(52)) * wide,
                wide == 2 * p,
                p > 0,
                pow2(52) >= 1,
        ;
        lemma_bit_length_unique(x, 54 + j);
        assert(spacing(x) == j + 1);
        assert(1 * wide == wide) by (nonlinear_arith);
        lemma_fundamental_div_mod_converse(x as int, wide as int, pow2(52) as int, rem as int);
        assert(round_half_even(x, wide) == pow2(52));
    }
}

/// Half of an even binary64 magnitude is a binary64 magnitude, and dividing
/// the magnitude by two gives it exactly.
pub proof fn lemma_half_is_exact(g: nat)
    requires
        is_magnitude(g),
        g % 2 == 0,
    ensures
        is_magnitude(g / 2),
        nearest_magnitude(g, 2) == g / 2,
{
    vstd::arithmetic::power2::lemma2_to64();
    let half = g / 2;
    let j = spacing(g);
    let p = pow2(j);
    lemma_pow2_pos(j);
    lemma_pow2_pos(2046);
    lemma_pow2_pos(53);
    if j == 0 {
        // below 2^53: any whole number is a magnitude
        assert(half < pow2(53)) by {
            if g > 0 {
                lemma_bit_length_bounds(g);
                if bit_length(g) < 53 {
                    lemma_pow2_strictly_increases(bit_length(g), 53);
                }
            }
        }
        assert(half * pow2(0) == half) by (nonlinear_arith)
            requires
                pow2(0) == 1,
        ;
        lemma_shifted_is_magnitude(half, 0);
    } else {
        let top = g / p;
        lemma_fundamental_div_mod(g as int, p as int);
        lemma_pow2_unfold(j);
        let lower = pow2((j - 1) as nat);
        assert(g == top * p);
        assert(half == top * lower) by (nonlinear_arith)
            requires
                g == top * p,
                p == 2 * lower,
                half == g / 2,
                g % 2 == 0,
                g == 2 * (g / 2) + g % 2,
        ;
        assert(bit_length(g) >= 54);
        lemma_spacing_bounds(g);
        assert(top < pow2(53)) by (nonlinear_arith)
            requires
                g == top * p,
                g < pow2(53) * p,
                p > 0,
        ;
        lemma_shifted_is_magnitude(top, (j - 1) as nat);
    }
    lemma_nearest_of_magnitude(half, 2);
}

/// A whole number of units between 2^(52 + j) and 2^(53 + j) rounds to a
/// multiple of 2^j: to `b * 2^j` for a `b` from 2^52 to 2^53.
pub proof fn lemma_rounds_to_multiple(x: nat, j: nat)
    requires
        in_range(j),
        pow2(52 + j) <= x < pow2(53 + j),
    ensures
        nearest_magnitude(x, 1) == (nearest_magnitude(x, 1) / pow2(j)) * pow2(j),
        pow2(52) <= nearest_magnitude(x, 1) / pow2(j) <= pow2(53),
{
    lemma_below_infinity(j);
    let p = pow2(j);
    lemma_bit_length_unique(x, 53 + j);
    assert(spacing(x) == j);
    assert(x / 1 == x);
    assert(1 * p == p) by (nonlinear_arith);
    let q = x / p;
    let rem = x % p;
    lemma_fundamental_div_mod(x as int, p as int);
    assert(pow2(52) <= q < pow2(53)) by (nonlinear_arith)
        requires
            x == p * q + rem,
            0 <= rem < p,
            pow2(52) * p <= x < pow2(53) * p,
            q >= 0,
    ;
    let e = round_half_even(x, p);
    let rounded = e * p;
    assert(rounded <= pow2(53) * p) by (nonlinear_arith)
        requires
            rounded == e * p,
            e <= pow2(53),
            p > 0,
    ;
    assert(nearest_magnitude(x, 1) == rounded);
    lemma_fundamental_div_mod_converse(rounded as int, p as int, e as int, 0);
}

/// Whatever is rounded, the result is a binary64 magnitude.
pub proof fn lemma_nearest_is_magnitude(n: nat, d: nat)
    requires
        d > 0,
    ensures
        is_magnitude(nearest_magnitude(n, d)),
{
    vstd::arithmetic::power2::lemma2_to64();
    vstd::arithmetic::power2::lemma2_to64_rest();
    let k = n / d;
    let j = spacing(k);
    let p = pow2(j);
    lemma_pow2_pos(j);
    lemma_pow2_pos(52);
    lemma_pow2_unfold(53);
    let e = round_half_even(n, d * p);
    let rounded = e * p;
    assert(d * p > 0) by (nonlinear_arith)
        requires
            d > 0,
            p > 0,
    ;
    vstd::arithmetic::div_mod::lemma_div_denominator(n as int, d as int, p as int);
    let q = k / p;
    assert(n / (d * p) == q);
    // the integer part has at most 53 bits once the spacing is taken out
    lemma_fundamental_div_mod(k as int, p as int);
    if bit_length(k) >= 53 {
        lemma_spacing_bounds(k);
        assert(q < pow2(53)) by (nonlinear_arith)
            requires
                k == p * q + k % p,
                k % p >= 0,
                k < pow2(53) * p,
                p > 0,
        ;
    } else {
        assert(k < pow2(53)) by {
            if k > 0 {
                lemma_bit_length_bounds(k);
                lemma_pow2_strictly_increases(bit_length(k), 53);
            }
        }
        assert(q <= k) by (nonlinear_arith)
            requires
                k == p * q + k % p,
                k % p >= 0,
                p >= 1,
                q >= 0,
        ;
    }
    assert(e <= pow2(53));
    lemma_pow2_adds(52, 2046);
    if rounded >= infinity_magnitude() {
        // infinity is 2^52 * 2^2046
        lemma_shifted_is_magnitude(pow2(52), 2046);
    } else if e < pow2(53) {
        lemma_shifted_is_magnitude(e, j);
    } else {
        lemma_pow2_unfold(j + 1);
        assert(rounded == pow2(52) * pow2(j + 1)) by (nonlinear_arith)
            requires
                rounded == e * p,
                e == 2 * pow2(52),
                pow2(j + 1) == 2 * p,
        ;
        lemma_shifted_is_magnitude(pow2(52), j + 1);
    }
}

} // verus!
