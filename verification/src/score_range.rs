//! The score is never above one.
//!
//! In exact arithmetic this is plain: the satisfied count plus half the
//! tolerating count is at most the total. The accumulator computes in
//! binary64, though, and above 2^53 the counts themselves are rounded: the
//! satisfied count may be rounded up and the total down. The proof shows that
//! the weighted sum still never rounds to more than the total does.

use vstd::prelude::*;
use vstd::arithmetic::power2::{pow2, lemma_pow2_pos, lemma_pow2_unfold, lemma_pow2_adds, lemma_pow2_strictly_increases};
use vstd::arithmetic::div_mod::lemma_fundamental_div_mod;
use crate::apdex::score_magnitude;
use crate::arithmetic::{from_integer, quotient, sum, unit, lemma_from_integer_bounds, lemma_power_is_magnitude};
use crate::hit_rate::{lemma_from_integer_whole, lemma_one};
use crate::rounding::{bit_length, is_magnitude, nearest_magnitude, lemma_bit_length_bounds, lemma_bit_length_shift, lemma_nearest_between, lemma_nearest_magnitude_scale, lemma_nearest_monotonic, lemma_nearest_of_magnitude, lemma_shifted_is_magnitude};
use crate::rounding_error::{in_range, lemma_half_is_exact, lemma_nearest_is_magnitude, lemma_rounding_error, lemma_rounds_to_at_most, lemma_rounds_to_multiple};

verus! {

/// A whole number below 2^53 converts to itself.
pub proof fn lemma_from_integer_exact(n: nat)
    requires
        n < pow2(53),
    ensures
        from_integer(n) == n * unit(),
{
    lemma_one();
    crate::arithmetic::lemma_powers_of_two();
    let x = n * unit();
    lemma_pow2_adds(53, 1074);
    lemma_pow2_adds(52, 2046);
    lemma_pow2_strictly_increases(1127, 2098);
    assert(x < pow2(53) * unit()) by (nonlinear_arith)
        requires
            x == n * unit(),
            n < pow2(53),
            unit() > 0,
    ;
    lemma_shifted_is_magnitude(n, 1074);
    lemma_nearest_of_magnitude(x, 1);
    assert(x * 1 == x) by (nonlinear_arith);
}

/// Half the tolerating count, as the accumulator computes it, is exactly half
/// of the converted count.
proof fn lemma_half_of_count(tolerating: nat)
    requires
        tolerating <= u64::MAX,
    ensures
        2 * quotient(from_integer(tolerating), 2 * unit()) == from_integer(tolerating),
{
    lemma_one();
    let u = unit();
    let t = from_integer(tolerating);
    lemma_from_integer_whole(tolerating);
    lemma_nearest_is_magnitude(tolerating * u, 1);
    lemma_pow2_unfold(1074);
    let lower = pow2(1073);
    let whole = t / u;
    lemma_fundamental_div_mod(t as int, u as int);
    assert(t == 2 * (lower * whole)) by (nonlinear_arith)
        requires
            t == u * whole,
            u == 2 * lower,
    ;
    assert(t % 2 == 0);
    lemma_half_is_exact(t);
    lemma_nearest_magnitude_scale(t, 2, u);
}

/// The weighted count does not round to more than the total, where the total
/// is below 2^53 and every count is converted exactly.
proof fn lemma_weighted_small(satisfied: nat, tolerating: nat, total: nat)
    requires
        satisfied + tolerating <= total,
        total < pow2(53),
        total <= u64::MAX,
    ensures
        sum(from_integer(satisfied), quotient(from_integer(tolerating), 2 * unit())) <= from_integer(total),
{
    lemma_one();
    let u = unit();
    lemma_from_integer_exact(satisfied);
    lemma_from_integer_exact(tolerating);
    lemma_from_integer_exact(total);
    lemma_half_of_count(tolerating);
    let half = quotient(from_integer(tolerating), 2 * u);
    let weighted = from_integer(satisfied) + half;
    assert(weighted <= total * u) by (nonlinear_arith)
        requires
            weighted == satisfied * u + half,
            2 * half == tolerating * u,
            satisfied + tolerating <= total,
            u > 0,
            half >= 0,
    ;
    assert(weighted * 1 <= (total * u) * 1) by (nonlinear_arith)
        requires
            weighted <= total * u,
    ;
    lemma_nearest_monotonic(weighted, 1, total * u, 1);
}

/// The same where the total has more than 53 bits.
proof fn lemma_weighted_large(satisfied: nat, tolerating: nat, total: nat)
    requires
        satisfied + tolerating <= total,
        pow2(53) <= total <= u64::MAX,
    ensures
        sum(from_integer(satisfied), quotient(from_integer(tolerating), 2 * unit())) <= from_integer(total),
{
    lemma_one();
    vstd::arithmetic::power2::lemma2_to64();
    vstd::arithmetic::power2::lemma2_to64_rest();
    let u = unit();
    let s = satisfied * u;
    let t = tolerating * u;
    let all = total * u;
    let a = from_integer(satisfied);
    let tb = from_integer(tolerating);
    let half = quotient(tb, 2 * u);
    let big = from_integer(total);
    lemma_half_of_count(tolerating);
    // the spacing of binary64 at the total: 2^j units
    lemma_bit_length_bounds(total);
    lemma_bit_length_shift(total, 1074, 0);
    if bit_length(total) < 54 {
        lemma_pow2_strictly_increases(bit_length(total), 54);
        lemma_pow2_unfold(54);
    }
    if bit_length(total) > 64 {
        lemma_pow2_strictly_increases(64, (bit_length(total) - 1) as nat);
    }
    let j = (bit_length(total) + 1074 - 53) as nat;
    assert(1075 <= j <= 1085);
    assert(in_range(j) && in_range((j - 1) as nat));
    let p = pow2(j);
    lemma_pow2_pos(j);
    lemma_pow2_unfold(j);
    lemma_bit_length_bounds(all);
    assert(pow2(52 + j) <= all < pow2(53 + j));
    lemma_pow2_adds(52, j);
    lemma_pow2_adds(53, j);
    lemma_pow2_unfold(53);
    assert(s <= all && t <= all) by (nonlinear_arith)
        requires
            s == satisfied * u,
            t == tolerating * u,
            all == total * u,
            satisfied + tolerating <= total,
            u > 0,
    ;
    assert(s + t <= all) by (nonlinear_arith)
        requires
            s == satisfied * u,
            t == tolerating * u,
            all == total * u,
            satisfied + tolerating <= total,
            u > 0,
    ;
    lemma_rounding_error(all, j);
    lemma_rounding_error(s, j);
    lemma_rounding_error(t, j);
    lemma_rounds_to_multiple(all, j);
    let b = big / p;
    assert(big == b * p);
    assert(s * 1 <= all * 1) by (nonlinear_arith)
        requires
            s <= all,
    ;
    lemma_nearest_monotonic(s, 1, all, 1);
    assert(a <= big);
    let weighted = a + half;
    if t >= 2 * p {
        // so much is tolerating that the half which is left out outweighs
        // what rounding can add
        assert(weighted * 1 <= all * 1) by (nonlinear_arith)
            requires
                weighted == a + half,
                2 * half == tb,
                2 * a <= 2 * s + p,
                2 * tb <= 2 * t + p,
                t >= 2 * p,
                s + t <= all,
        ;
        lemma_nearest_monotonic(weighted, 1, all, 1);
    } else {
        // few are tolerating: their count is converted exactly
        lemma_pow2_adds((j - 1074) as nat, 1074);
        lemma_pow2_unfold((j - 1074 + 1) as nat);
        lemma_pow2_strictly_increases((j - 1074 + 1) as nat, 53);
        let small = pow2((j - 1074) as nat);
        assert(tolerating < 2 * small) by (nonlinear_arith)
            requires
                t == tolerating * u,
                t < 2 * p,
                p == small * u,
                u > 0,
        ;
        lemma_from_integer_exact(tolerating);
        assert(tb == t);
        if a < big {
            // the satisfied count rounds to a magnitude below that of the
            // total, and the next one below is at least half a spacing away
            lemma_before(s, big, b, j);
            assert(2 * weighted < 2 * (b * p) + p);
            lemma_rounds_to_at_most(weighted, b, j);
        } else {
            // both round to the same magnitude: then the tolerating count is
            // at most one spacing, and exactly one only in a tie
            assert(2 * t <= 2 * p);
            assert(2 * weighted <= 2 * (b * p) + p);
            if 2 * weighted == 2 * (b * p) + p {
                assert(2 * all == 2 * big + p);
                assert(b % 2 == 0);
            }
            lemma_rounds_to_at_most(weighted, b, j);
        }
    }
}

/// A number that rounds to less than `b * 2^j`, where it is below
/// 2^(53 + j), rounds to at most half of 2^j less.
proof fn lemma_before(x: nat, big: nat, b: nat, j: nat)
    requires
        in_range(j),
        in_range((j - 1) as nat),
        x < pow2(53 + j),
        pow2(52) <= b <= pow2(53),
        big == b * pow2(j),
        nearest_magnitude(x, 1) < big,
    ensures
        2 * nearest_magnitude(x, 1) + pow2(j) <= 2 * big,
{
    let p = pow2(j);
    let a = nearest_magnitude(x, 1);
    lemma_pow2_pos(j);
    lemma_pow2_unfold(j);
    let lower = pow2((j - 1) as nat);
    lemma_pow2_pos((j - 1) as nat);
    lemma_pow2_adds(52, j);
    lemma_pow2_adds(53, j);
    lemma_pow2_adds(52, (j - 1) as nat);
    lemma_pow2_adds(53, (j - 1) as nat);
    lemma_pow2_unfold(53);
    lemma_pow2_pos(52);
    assert(pow2(52) * p <= big) by (nonlinear_arith)
        requires
            big == b * p,
            pow2(52) <= b,
            p > 0,
    ;
    if x >= pow2(52 + j) {
        // the same spacing: both are multiples of 2^j
        lemma_rounds_to_multiple(x, j);
        let c = a / p;
        assert(c < b) by (nonlinear_arith)
            requires
                a == c * p,
                big == b * p,
                a < big,
                p > 0,
        ;
        assert(a + p <= big) by (nonlinear_arith)
            requires
                a == c * p,
                big == b * p,
                c + 1 <= b,
                p > 0,
        ;
    } else if x >= pow2(51 + j) {
        // half the spacing: both are multiples of 2^(j - 1)
        assert(52 + (j - 1) as nat == 51 + j);
        assert(53 + (j - 1) as nat == 52 + j);
        lemma_rounds_to_multiple(x, (j - 1) as nat);
        let c = a / lower;
        assert(c < 2 * b) by (nonlinear_arith)
            requires
                a == c * lower,
                big == b * p,
                p == 2 * lower,
                a < big,
                lower > 0,
        ;
        assert(2 * a + p <= 2 * big) by (nonlinear_arith)
            requires
                a == c * lower,
                big == b * p,
                p == 2 * lower,
                c + 1 <= 2 * b,
                lower > 0,
        ;
    } else {
        // far below: at most 2^(51 + j), which is half of 2^(52 + j)
        assert(51 + j <= 2098);
        lemma_power_is_magnitude(51 + j);
        lemma_power_is_magnitude(0);
        lemma_pow2_unfold(52 + j);
        assert(pow2((52 + j - 1) as nat) == pow2(51 + j));
        let top = pow2(51 + j);
        assert(is_magnitude(0)) by {
            assert(bit_length(0) == 0);
            lemma_pow2_pos(0);
            lemma_pow2_pos(2046);
            assert(0nat % pow2(0) == 0);
        }
        assert(0 * 1 <= x <= top * 1) by (nonlinear_arith)
            requires
                x < top,
                x >= 0,
        ;
        lemma_nearest_between(x, 1, 0, top);
        lemma_pow2_adds(51, j);
        lemma_pow2_pos(51);
        assert(p <= top) by (nonlinear_arith)
            requires
                top == pow2(51) * p,
                pow2(51) >= 1,
                p >= 0,
        ;
        assert(2 * top == pow2(52) * p);
        assert(2 * a + p <= 2 * big);
    }
}

/// The score is at most one: for counts whose total fits in a `u64`, the
/// magnitude that `score` computes is at most that of the number one.
pub proof fn law_score_at_most_one(satisfied: nat, tolerating: nat, total: nat)
    requires
        satisfied + tolerating <= total,
        1 <= total <= u64::MAX,
    ensures
        score_magnitude(satisfied, tolerating, total) <= unit(),
{
    lemma_one();
    let u = unit();
    let big = from_integer(total);
    let weighted = sum(from_integer(satisfied), quotient(from_integer(tolerating), 2 * u));
    if total < pow2(53) {
        lemma_weighted_small(satisfied, tolerating, total);
    } else {
        lemma_weighted_large(satisfied, tolerating, total);
    }
    lemma_from_integer_bounds(total);
    assert(is_magnitude(0)) by {
        assert(bit_length(0) == 0);
        lemma_pow2_pos(0);
        lemma_pow2_pos(2046);
        vstd::arithmetic::power2::lemma2_to64();
        assert(0nat % pow2(0) == 0);
    }
    assert(0 * big <= weighted * u <= u * big) by (nonlinear_arith)
        requires
            weighted <= big,
            u > 0,
            weighted >= 0,
    ;
    lemma_nearest_between(weighted * u, big, 0, u);
}

} // verus!
