//! Rounding to the nearest binary64, ties to even: the definition, and the
//! facts about it that the arithmetic rests on.
//!
//! Exact results are fractions `n / d` in units of 2^-1074. In these units the
//! binary64 magnitudes are the natural numbers with at most 53 significant
//! bits: all of them below 2^53, then the multiples of 2 up to 2^54, the
//! multiples of 4 up to 2^55, and so on.

use vstd::prelude::*;
use vstd::arithmetic::power2::{pow2, lemma_pow2_pos, lemma_pow2_unfold, lemma_pow2_adds, lemma_pow2_strictly_increases};
use vstd::arithmetic::div_mod::{lemma_fundamental_div_mod, lemma_fundamental_div_mod_converse, lemma_div_denominator};
use crate::binary64::infinity_magnitude;

verus! {

/// The number of bits of `k`: 0 for 0, and `b` for 2^(b-1) <= k < 2^b.
pub open spec fn bit_length(k: nat) -> nat
    decreases k,
{
    if k == 0 {
        0
    } else {
        1 + bit_length(k / 2)
    }
}

/// `n / d` rounded to the nearest integer, a tie to the even one.
pub open spec fn round_half_even(n: nat, d: nat) -> nat {
    let q = n / d;
    let r = n % d;
    if 2 * r < d || (2 * r == d && q % 2 == 0) {
        q
    } else {
        q + 1
    }
}

/// The binary64 magnitudes around a number whose integer part is `k` are the
/// multiples of two to this power.
pub open spec fn spacing(k: nat) -> nat {
    if bit_length(k) <= 53 {
        0
    } else {
        (bit_length(k) - 53) as nat
    }
}

/// The binary64 magnitude nearest to `n / d`, a tie going to the magnitude
/// with the even significand, and whatever reaches 2^2098 to infinity: what
/// IEEE 754 calls roundTiesToEven. `d` is positive.
pub open spec fn nearest_magnitude(n: nat, d: nat) -> nat {
    let j = spacing(n / d);
    let rounded = round_half_even(n, d * pow2(j)) * pow2(j);
    if rounded >= infinity_magnitude() {
        infinity_magnitude()
    } else {
        rounded
    }
}

/// `bit_length(k)` is the `b` with 2^(b-1) <= k < 2^b.
pub proof fn lemma_bit_length_bounds(k: nat)
    requires
        k > 0,
    ensures
        bit_length(k) >= 1,
        pow2((bit_length(k) - 1) as nat) <= k < pow2(bit_length(k)),
    decreases k,
{
    vstd::arithmetic::power2::lemma2_to64();
    if k == 1 {
        assert(bit_length(1) == 1 + bit_length(0));
    } else {
        lemma_bit_length_bounds(k / 2);
        let b = bit_length(k / 2);
        assert(bit_length(k) == b + 1);
        lemma_pow2_unfold(b);
        lemma_pow2_unfold(b + 1);
    }
}

/// The converse: a number between 2^(b-1) and 2^b has `b` bits.
pub proof fn lemma_bit_length_unique(k: nat, b: nat)
    requires
        b >= 1,
        pow2((b - 1) as nat) <= k < pow2(b),
    ensures
        bit_length(k) == b,
{
    lemma_pow2_pos((b - 1) as nat);
    lemma_bit_length_bounds(k);
    let c = bit_length(k);
    if c < b {
        if c < b - 1 {
            lemma_pow2_strictly_increases(c, (b - 1) as nat);
        }
    } else if c > b {
        if c - 1 > b {
            lemma_pow2_strictly_increases(b, (c - 1) as nat);
        }
    }
}

/// Shifting a positive number left by `w` places, whatever fills the low
/// places, adds `w` to its length.
pub proof fn lemma_bit_length_shift(k: nat, w: nat, low: nat)
    requires
        k > 0,
        low < pow2(w),
    ensures
        bit_length(k * pow2(w) + low) == bit_length(k) + w,
{
    lemma_bit_length_bounds(k);
    let b = bit_length(k);
    let pw = pow2(w) as int;
    let lo = pow2((b - 1) as nat) as int;
    let hi = pow2(b) as int;
    lemma_pow2_adds((b - 1) as nat, w);
    lemma_pow2_adds(b, w);
    let ki = k as int;
    assert(lo * pw <= ki * pw) by (nonlinear_arith)
        requires
            lo <= ki,
            pw >= 0,
    ;
    assert(ki * pw + pw <= hi * pw) by (nonlinear_arith)
        requires
            ki + 1 <= hi,
            pw >= 0,
    ;
    lemma_bit_length_unique(k * pow2(w) + low, b + w);
}

/// Rounding `n / d` does not depend on how the fraction is written.
pub proof fn lemma_round_half_even_scale(n: nat, d: nat, c: nat)
    requires
        d > 0,
        c > 0,
    ensures
        (n * c) / (d * c) == n / d,
        round_half_even(n * c, d * c) == round_half_even(n, d),
{
    let q = (n / d) as int;
    let r = (n % d) as int;
    let ni = n as int;
    let di = d as int;
    let ci = c as int;
    lemma_fundamental_div_mod(ni, di);
    assert(ni * ci == q * (di * ci) + r * ci) by (nonlinear_arith)
        requires
            ni == di * q + r,
    ;
    assert(0 <= r * ci < di * ci) by (nonlinear_arith)
        requires
            0 <= r < di,
            ci > 0,
    ;
    lemma_fundamental_div_mod_converse(ni * ci, di * ci, q, r * ci);
    assert(2 * (r * ci) < di * ci <==> 2 * r < di) by (nonlinear_arith)
        requires
            ci > 0,
    ;
    assert(2 * (r * ci) == di * ci <==> 2 * r == di) by (nonlinear_arith)
        requires
            ci > 0,
    ;
}

/// The nearest magnitude does not depend on how the fraction is written.
pub proof fn lemma_nearest_magnitude_scale(n: nat, d: nat, c: nat)
    requires
        d > 0,
        c > 0,
    ensures
        nearest_magnitude(n * c, d * c) == nearest_magnitude(n, d),
{
    lemma_round_half_even_scale(n, d, c);
    let j = spacing(n / d);
    lemma_pow2_pos(j);
    let p = pow2(j);
    assert((d * c) * p == (d * p) * c) by (nonlinear_arith);
    assert(d * p > 0) by (nonlinear_arith)
        requires
            d > 0,
            p > 0,
    ;
    lemma_round_half_even_scale(n, d * p, c);
}

/// Whether rounding a quotient to `k` fewer bits goes up: `low` holds the `k`
/// bits that are dropped, `inexact` says that the division left a remainder,
/// and `odd` that the bits kept are an odd number.
pub open spec fn rounds_up(low: nat, k: nat, inexact: bool, odd: bool) -> bool {
    let half = pow2((k - 1) as nat);
    low > half || (low == half && (inexact || odd))
}

/// Rounding to a coarser grid from an integer quotient: with `n = q * d + r`,
/// and `q` split into its top bits `m` and its `k >= 1` low bits `low`, the
/// fraction `n / (d * 2^k)` rounds to `m` or to `m + 1`, and the low bits
/// decide together with whether a remainder was left.
pub proof fn lemma_round_from_quotient(n: nat, d: nat, k: nat)
    requires
        d > 0,
        k >= 1,
    ensures
        round_half_even(n, d * pow2(k)) == (n / d) / pow2(k) + (if rounds_up(
            (n / d) % pow2(k),
            k,
            n % d != 0,
            ((n / d) / pow2(k)) % 2 == 1,
        ) {
            1nat
        } else {
            0nat
        }),
{
    let q = (n / d) as int;
    let r = (n % d) as int;
    let ni = n as int;
    let di = d as int;
    let p = pow2(k) as int;
    let half = pow2((k - 1) as nat) as int;
    lemma_pow2_pos(k);
    lemma_pow2_pos((k - 1) as nat);
    lemma_pow2_unfold(k);
    assert(p == 2 * half);
    let m = q / p;
    let low = q % p;
    lemma_fundamental_div_mod(ni, di);
    lemma_fundamental_div_mod(q, p);
    assert(0 <= low < p);
    // n = m * (d * p) + (low * d + r), and the second part is below d * p
    let rest = low * di + r;
    assert(ni == m * (di * p) + rest) by (nonlinear_arith)
        requires
            ni == di * q + r,
            q == p * m + low,
            rest == low * di + r,
    ;
    assert(0 <= rest < di * p) by (nonlinear_arith)
        requires
            0 <= low,
            low + 1 <= p,
            0 <= r < di,
            rest == low * di + r,
    ;
    lemma_fundamental_div_mod_converse(ni, di * p, m, rest);
    assert(n / (d * pow2(k)) == m);
    assert(n % (d * pow2(k)) == rest);
    // compare 2 * rest with d * p = 2 * half * d
    if low > half {
        assert(2 * rest > di * p) by (nonlinear_arith)
            requires
                low >= half + 1,
                r >= 0,
                di > 0,
                p == 2 * half,
                rest == low * di + r,
        ;
    } else if low < half {
        assert(2 * rest < di * p) by (nonlinear_arith)
            requires
                low + 1 <= half,
                0 <= r < di,
                p == 2 * half,
                rest == low * di + r,
        ;
    } else {
        assert(2 * rest == di * p + 2 * r) by (nonlinear_arith)
            requires
                low == half,
                p == 2 * half,
                rest == low * di + r,
        ;
    }
}

/// A larger fraction does not round to a smaller integer.
pub proof fn lemma_round_half_even_monotonic(n1: nat, d1: nat, n2: nat, d2: nat)
    requires
        d1 > 0,
        d2 > 0,
        n1 * d2 <= n2 * d1,
    ensures
        n1 / d1 <= n2 / d2,
        round_half_even(n1, d1) <= round_half_even(n2, d2),
{
    let q1 = (n1 / d1) as int;
    let r1 = (n1 % d1) as int;
    let q2 = (n2 / d2) as int;
    let r2 = (n2 % d2) as int;
    let (a1, b1, a2, b2) = (n1 as int, d1 as int, n2 as int, d2 as int);
    lemma_fundamental_div_mod(a1, b1);
    lemma_fundamental_div_mod(a2, b2);
    assert(q1 <= q2) by (nonlinear_arith)
        requires
            a1 == b1 * q1 + r1,
            a2 == b2 * q2 + r2,
            0 <= r1 < b1,
            0 <= r2 < b2,
            a1 * b2 <= a2 * b1,
    ;
    if q1 == q2 {
        assert(r1 * b2 <= r2 * b1) by (nonlinear_arith)
            requires
                a1 == b1 * q1 + r1,
                a2 == b2 * q2 + r2,
                q1 == q2,
                a1 * b2 <= a2 * b1,
        ;
        if 2 * r1 > b1 {
            assert(2 * r2 > b2) by (nonlinear_arith)
                requires
                    r1 * b2 <= r2 * b1,
                    2 * r1 > b1,
                    b1 > 0,
                    b2 > 0,
                    r2 >= 0,
            ;
        } else if 2 * r1 == b1 {
            assert(2 * r2 >= b2) by (nonlinear_arith)
                requires
                    r1 * b2 <= r2 * b1,
                    2 * r1 == b1,
                    b1 > 0,
                    b2 > 0,
                    r2 >= 0,
            ;
        }
    }
}

/// The binary64 magnitudes, infinity among them: the numbers that are
/// multiples of the spacing at their own place.
pub open spec fn is_magnitude(g: nat) -> bool {
    g % pow2(spacing(g)) == 0 && g <= infinity_magnitude()
}

/// More bits for the larger number.
pub proof fn lemma_bit_length_monotonic(a: nat, b: nat)
    requires
        a <= b,
    ensures
        bit_length(a) <= bit_length(b),
        spacing(a) <= spacing(b),
    decreases b,
{
    if a > 0 {
        lemma_bit_length_monotonic(a / 2, b / 2);
    }
}

/// A number with more than 53 bits lies between 2^52 and 2^53 times its
/// spacing.
pub proof fn lemma_spacing_bounds(k: nat)
    requires
        bit_length(k) >= 53,
    ensures
        pow2(52) * pow2(spacing(k)) <= k < pow2(53) * pow2(spacing(k)),
{
    assert(k > 0) by {
        assert(bit_length(0) == 0);
    }
    lemma_bit_length_bounds(k);
    lemma_pow2_adds(52, spacing(k));
    lemma_pow2_adds(53, spacing(k));
}

/// Rounding a fraction gives at least its integer part and at most one more.
pub proof fn lemma_round_half_even_bounds(n: nat, d: nat)
    requires
        d > 0,
    ensures
        n / d <= round_half_even(n, d) <= n / d + 1,
        n % d == 0 ==> round_half_even(n, d) == n / d,
{
}

/// A binary64 magnitude rounds to itself.
pub proof fn lemma_nearest_of_magnitude(g: nat, d: nat)
    requires
        d > 0,
        is_magnitude(g),
    ensures
        nearest_magnitude(g * d, d) == g,
{
    let j = spacing(g);
    let p = pow2(j);
    lemma_pow2_pos(j);
    let top = g / p;
    lemma_fundamental_div_mod(g as int, p as int);
    assert(g == top * p);
    assert(g * d == g * d + 0 && (g * d) as int == (g as int) * (d as int) + 0) by (nonlinear_arith);
    lemma_fundamental_div_mod_converse((g * d) as int, d as int, g as int, 0);
    assert((g * d) / d == g);
    assert(d * p > 0) by (nonlinear_arith)
        requires
            d > 0,
            p > 0,
    ;
    assert((g * d) as int == (top as int) * ((d * p) as int) + 0) by (nonlinear_arith)
        requires
            g == top * p,
    ;
    lemma_fundamental_div_mod_converse((g * d) as int, (d * p) as int, top as int, 0);
    assert(round_half_even(g * d, d * p) == top);
}

/// Rounding to the nearest magnitude keeps the order.
pub proof fn lemma_nearest_monotonic(n1: nat, d1: nat, n2: nat, d2: nat)
    requires
        d1 > 0,
        d2 > 0,
        n1 * d2 <= n2 * d1,
    ensures
        nearest_magnitude(n1, d1) <= nearest_magnitude(n2, d2),
{
    lemma_round_half_even_monotonic(n1, d1, n2, d2);
    let k1 = n1 / d1;
    let k2 = n2 / d2;
    lemma_bit_length_monotonic(k1, k2);
    let j1 = spacing(k1);
    let j2 = spacing(k2);
    let pa = pow2(j1);
    let pb = pow2(j2);
    lemma_pow2_pos(j1);
    lemma_pow2_pos(j2);
    let e1 = round_half_even(n1, d1 * pa);
    let e2 = round_half_even(n2, d2 * pb);
    assert(d1 * pa > 0 && d2 * pb > 0) by (nonlinear_arith)
        requires
            d1 > 0,
            d2 > 0,
            pa > 0,
            pb > 0,
    ;
    if j1 == j2 {
        assert(n1 * (d2 * pb) <= n2 * (d1 * pa)) by (nonlinear_arith)
            requires
                n1 * d2 <= n2 * d1,
                pa == pb,
                pa > 0,
        ;
        lemma_round_half_even_monotonic(n1, d1 * pa, n2, d2 * pb);
        assert(e1 * pa <= e2 * pb) by (nonlinear_arith)
            requires
                e1 <= e2,
                pa == pb,
        ;
    } else {
        // the first rounds to at most 2^53 * 2^j1, the second to at least
        // 2^52 * 2^j2, and j1 < j2
        vstd::arithmetic::power2::lemma2_to64();
        vstd::arithmetic::power2::lemma2_to64_rest();
        lemma_round_half_even_bounds(n1, d1 * pa);
        lemma_round_half_even_bounds(n2, d2 * pb);
        lemma_div_denominator(n1 as int, d1 as int, pa as int);
        lemma_div_denominator(n2 as int, d2 as int, pb as int);
        assert(n1 / (d1 * pa) == k1 / pa);
        assert(n2 / (d2 * pb) == k2 / pb);
        lemma_spacing_bounds(k2);
        lemma_fundamental_div_mod(k1 as int, pa as int);
        lemma_fundamental_div_mod(k2 as int, pb as int);
        let t1 = k1 / pa;
        let t2 = k2 / pb;
        assert(t2 >= pow2(52)) by (nonlinear_arith)
            requires
                k2 == pb * t2 + k2 % pb,
                k2 % pb < pb,
                pow2(52) * pb <= k2,
                pb > 0,
        ;
        if bit_length(k1) >= 53 {
            lemma_spacing_bounds(k1);
            assert(t1 < pow2(53)) by (nonlinear_arith)
                requires
                    k1 == pa * t1 + k1 % pa,
                    0 <= k1 % pa,
                    k1 < pow2(53) * pa,
                    pa > 0,
            ;
        } else {
            assert(k1 < pow2(53)) by {
                if k1 > 0 {
                    lemma_bit_length_bounds(k1);
                    if bit_length(k1) < 53 {
                        lemma_pow2_strictly_increases(bit_length(k1), 53);
                    }
                }
            }
            assert(t1 <= k1) by (nonlinear_arith)
                requires
                    k1 == pa * t1 + k1 % pa,
                    0 <= k1 % pa,
                    pa > 0,
                    t1 >= 0,
            ;
        }
        lemma_pow2_unfold(j2);
        if j1 < j2 - 1 {
            lemma_pow2_strictly_increases(j1, (j2 - 1) as nat);
        }
        let half2 = pow2((j2 - 1) as nat);
        assert(e1 * pa <= e2 * pb) by (nonlinear_arith)
            requires
                e1 <= pow2(53),
                e2 >= pow2(52),
                pow2(53) == 2 * pow2(52),
                pb == 2 * half2,
                pa <= half2,
                pa > 0,
        ;
    }
}

/// A number of at most 53 bits, shifted left, is a binary64 magnitude if it is
/// not beyond infinity.
pub proof fn lemma_shifted_is_magnitude(m: nat, j: nat)
    requires
        m < pow2(53),
        m * pow2(j) <= infinity_magnitude(),
    ensures
        is_magnitude(m * pow2(j)),
{
    let g = m * pow2(j);
    lemma_pow2_pos(j);
    vstd::arithmetic::power2::lemma2_to64();
    if m == 0 {
        assert(g == 0) by (nonlinear_arith)
            requires
                g == m * pow2(j),
                m == 0,
        ;
        assert(bit_length(0) == 0);
        assert(0nat % 1 == 0);
    } else {
        lemma_bit_length_shift(m, j, 0);
        lemma_bit_length_bounds(m);
        if bit_length(m) > 53 {
            lemma_pow2_strictly_increases(53, (bit_length(m) - 1) as nat);
        }
        let sp = spacing(g);
        assert(sp <= j);
        lemma_pow2_adds((j - sp) as nat, sp);
        let top = m * pow2((j - sp) as nat);
        assert(g == top * pow2(sp)) by (nonlinear_arith)
            requires
                g == m * pow2(j),
                pow2(j) == pow2((j - sp) as nat) * pow2(sp),
                top == m * pow2((j - sp) as nat),
        ;
        lemma_pow2_pos(sp);
        lemma_fundamental_div_mod_converse(g as int, pow2(sp) as int, top as int, 0);
    }
}

/// A fraction between two binary64 magnitudes rounds to a magnitude between
/// them.
pub proof fn lemma_nearest_between(n: nat, d: nat, low: nat, high: nat)
    requires
        d > 0,
        is_magnitude(low),
        is_magnitude(high),
        low * d <= n <= high * d,
    ensures
        low <= nearest_magnitude(n, d) <= high,
{
    lemma_nearest_of_magnitude(low, d);
    lemma_nearest_of_magnitude(high, d);
    assert((low * d) * d <= n * d && n * d <= (high * d) * d) by (nonlinear_arith)
        requires
            low * d <= n <= high * d,
            d > 0,
    ;
    lemma_nearest_monotonic(low * d, d, n, d);
    lemma_nearest_monotonic(n, d, high * d, d);
}

} // verus!
