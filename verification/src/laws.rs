//! What holds of the accumulator whatever it is given.

use vstd::prelude::*;
use vstd::arithmetic::power2::{pow2, lemma_pow2_pos, lemma_pow2_unfold, lemma_pow2_adds, lemma_pow2_strictly_increases};
use crate::apdex::{count_in_zone, score_magnitude, zone_of, Apdex, Zone};
use crate::arithmetic::{from_integer, quotient, sum, unit, lemma_from_integer_bounds, lemma_positive_has_magnitude, lemma_powers_of_two};
use crate::binary64::{Binary64, infinity_magnitude, saturate, lemma_magnitude_bound};
use crate::hit_rate::lemma_one;
use crate::rating::{EXCELLENT_BITS, FAIR_BITS, GOOD_BITS, POOR_BITS};
use crate::rounding::{nearest_magnitude, round_half_even, spacing, lemma_bit_length_unique, lemma_round_half_even_scale};
use crate::rounding_error::lemma_nearest_is_magnitude;
use crate::score_range::law_score_at_most_one;

verus! {

/// Every sample falls into exactly one zone: the three counts of a sequence
/// of samples add up to its length.
pub proof fn law_counts_add_up(threshold: Binary64, samples: Seq<Result<Binary64, ()>>)
    ensures
        count_in_zone(threshold, samples, Zone::Satisfied) + count_in_zone(
            threshold,
            samples,
            Zone::Tolerating,
        ) + count_in_zone(threshold, samples, Zone::Frustrated) == samples.len(),
    decreases samples.len(),
{
    if samples.len() > 0 {
        law_counts_add_up(threshold, samples.drop_last());
    }
}

/// Taking one sample out of a sequence lowers the count of its zone by one
/// and leaves the other counts as they were.
pub proof fn lemma_count_without(threshold: Binary64, samples: Seq<Result<Binary64, ()>>, i: int, zone: Zone)
    requires
        0 <= i < samples.len(),
    ensures
        count_in_zone(threshold, samples, zone) == count_in_zone(threshold, samples.remove(i), zone) + (if zone_of(
            threshold,
            samples[i],
        ) == zone {
            1nat
        } else {
            0nat
        }),
    decreases samples.len(),
{
    if i == samples.len() - 1 {
        assert(samples.remove(i) =~= samples.drop_last());
    } else {
        let shorter = samples.remove(i);
        assert(shorter.drop_last() =~= samples.drop_last().remove(i));
        assert(shorter.last() == samples.last());
        lemma_count_without(threshold, samples.drop_last(), i, zone);
    }
}

/// The counts do not depend on the order of the samples: two sequences that
/// hold the same samples, each as often as the other, give the same count for
/// every zone.
pub proof fn law_order_does_not_matter(
    threshold: Binary64,
    first: Seq<Result<Binary64, ()>>,
    second: Seq<Result<Binary64, ()>>,
    zone: Zone,
)
    requires
        first.to_multiset() == second.to_multiset(),
    ensures
        count_in_zone(threshold, first, zone) == count_in_zone(threshold, second, zone),
    decreases first.len(),
{
    broadcast use vstd::seq_lib::group_to_multiset_ensures;

    first.to_multiset_ensures();
    second.to_multiset_ensures();
    if first.len() == 0 {
        assert(first.to_multiset().len() == first.len());
        assert(second.to_multiset().len() == second.len());
    } else {
        let x = first.last();
        let rest = first.drop_last();
        assert(first =~= rest.push(x));
        assert(first.to_multiset() =~= rest.to_multiset().insert(x));
        assert(second.to_multiset().count(x) > 0);
        assert(second.contains(x));
        let i = choose|i: int| 0 <= i < second.len() && second[i] == x;
        let other = second.remove(i);
        assert(other.to_multiset() =~= second.to_multiset().remove(x));
        assert(rest.to_multiset() =~= first.to_multiset().remove(x));
        law_order_does_not_matter(threshold, rest, other, zone);
        lemma_count_without(threshold, second, i, zone);
    }
}

/// The boundaries of the zones, for a threshold that is positive and finite:
/// a time equal to the threshold is satisfied; a time equal to four times the
/// threshold is tolerating; a longer time is frustrated, and so is a time that
/// is not a number, and a failure.
pub proof fn law_zone_boundaries(threshold: Binary64, time: Binary64)
    requires
        threshold.is_finite(),
        threshold.value() > 0,
    ensures
        !time.spec_is_nan() && time.value() == threshold.value() ==> zone_of(threshold, Ok(time))
            == Zone::Satisfied,
        !time.spec_is_nan() && time.value() == saturate(4 * threshold.value()) ==> zone_of(
            threshold,
            Ok(time),
        ) == Zone::Tolerating,
        !time.spec_is_nan() && time.value() > saturate(4 * threshold.value()) ==> zone_of(
            threshold,
            Ok(time),
        ) == Zone::Frustrated,
        time.spec_is_nan() ==> zone_of(threshold, Ok(time)) == Zone::Frustrated,
        zone_of(threshold, Err(())) == Zone::Frustrated,
{
    lemma_magnitude_bound(threshold);
}

/// There is a score exactly where there are samples, and it lies between
/// zero and one.
pub proof fn law_score_range(apdex: Apdex)
    requires
        apdex.well_formed(),
    ensures
        apdex.spec_score() is None <==> apdex.spec_total() == 0,
        apdex.spec_score() matches Some(x) ==> !x.spec_is_nan() && 0 <= x.value() <= unit(),
{
    if apdex.spec_total() > 0 {
        let m = score_magnitude(apdex.satisfied as nat, apdex.tolerating as nat, apdex.spec_total());
        law_score_at_most_one(apdex.satisfied as nat, apdex.tolerating as nat, apdex.spec_total());
        lemma_one();
        lemma_from_integer_bounds(apdex.spec_total());
        lemma_nearest_is_magnitude(
            sum(
                from_integer(apdex.satisfied as nat),
                quotient(from_integer(apdex.tolerating as nat), 2 * unit()),
            ) * unit(),
            from_integer(apdex.spec_total()),
        );
        lemma_positive_has_magnitude(m);
    }
}

/// The binary64 nearest to a number of hundredths from 50 to 99: its
/// significand is that of `hundredths * 2^53 / 100`, rounded, and its scale
/// is that of the numbers from one half up to one.
proof fn lemma_nearest_hundredths(hundredths: nat)
    requires
        50 <= hundredths < 100,
    ensures
        nearest_magnitude(hundredths * unit(), 100) == round_half_even(hundredths * pow2(53), 100) * pow2(1021),
{
    lemma_powers_of_two();
    lemma_one();
    let u = unit();
    let n = hundredths * u;
    let k = n / 100;
    lemma_pow2_unfold(1074);
    lemma_pow2_adds(53, 1021);
    lemma_pow2_adds(52, 2046);
    lemma_pow2_strictly_increases(1074, 2098);
    let g = pow2(1021);
    lemma_pow2_pos(1021);
    assert(pow2(1073) <= k < pow2(1074)) by {
        assert(50 * u <= n < 100 * u) by (nonlinear_arith)
            requires
                n == hundredths * u,
                50 <= hundredths < 100,
                u > 0,
        ;
    }
    lemma_bit_length_unique(k, 1074);
    assert(spacing(k) == 1021);
    let top = hundredths * pow2(53);
    assert(n == top * g) by (nonlinear_arith)
        requires
            n == hundredths * u,
            u == pow2(53) * g,
            top == hundredths * pow2(53),
    ;
    lemma_round_half_even_scale(top, 100, g);
    let e = round_half_even(top, 100);
    assert(e * g < infinity_magnitude()) by (nonlinear_arith)
        requires
            e <= top / 100 + 1,
            top / 100 < pow2(53),
            pow2(53) * g == u,
            u < infinity_magnitude(),
            g > 0,
    ;
}

/// The limits of the rating bands are the binary64 numbers nearest to 0.94,
/// 0.85, 0.70 and 0.50.
pub proof fn law_band_limits()
    ensures
        (Binary64 { bits: EXCELLENT_BITS }).magnitude() == nearest_magnitude(94 * unit(), 100),
        (Binary64 { bits: GOOD_BITS }).magnitude() == nearest_magnitude(85 * unit(), 100),
        (Binary64 { bits: FAIR_BITS }).magnitude() == nearest_magnitude(70 * unit(), 100),
        (Binary64 { bits: POOR_BITS }).magnitude() == nearest_magnitude(50 * unit(), 100),
{
    lemma_powers_of_two();
    lemma_nearest_hundredths(94);
    lemma_nearest_hundredths(85);
    lemma_nearest_hundredths(70);
    lemma_nearest_hundredths(50);
    let excellent = Binary64 { bits: EXCELLENT_BITS };
    assert(excellent.biased_exponent() == 1022);
    assert(excellent.significand() == 0x001e_147a_e147_ae14);
    assert(round_half_even(94 * pow2(53), 100) == 0x001e_147a_e147_ae14);
    let good = Binary64 { bits: GOOD_BITS };
    assert(good.biased_exponent() == 1022);
    assert(good.significand() == 0x001b_3333_3333_3333);
    assert(round_half_even(85 * pow2(53), 100) == 0x001b_3333_3333_3333);
    let fair = Binary64 { bits: FAIR_BITS };
    assert(fair.biased_exponent() == 1022);
    assert(fair.significand() == 0x0016_6666_6666_6666);
    assert(round_half_even(70 * pow2(53), 100) == 0x0016_6666_6666_6666);
    let poor = Binary64 { bits: POOR_BITS };
    assert(poor.biased_exponent() == 1022);
    assert(poor.significand() == 0x0010_0000_0000_0000);
    assert(round_half_even(50 * pow2(53), 100) == 0x0010_0000_0000_0000);
}

} // verus!
