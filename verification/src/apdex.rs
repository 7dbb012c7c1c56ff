//! The Apdex accumulator.

use vstd::prelude::*;
use vstd::arithmetic::power2::{pow2, lemma_pow2_adds, lemma_pow2_pos, lemma_pow2_unfold};
use crate::binary64::{Binary64, saturate, lemma_positive_of_magnitude};
use crate::arithmetic::{plus, divide, from_integer, quotient, sum, unit, lemma_from_integer_bounds, lemma_nearest_of_zero, lemma_power_is_magnitude, lemma_scale_range, lemma_powers_of_two};
use crate::rounding::lemma_nearest_between;
use crate::rating::{DisplayColor, Rating};
use crate::text::fixed_text;
use crate::hit_rate::{hits_for, simulated_hits, valid_hit_rate, ONE_BITS};
use vstd::string::StringExecFns;

verus! {

/// The three Apdex zones.
#[derive(Clone, Copy, Debug, PartialEq, Eq, Structural)]
pub enum Zone {
    /// The response time is at most the threshold.
    Satisfied,
    /// The response time is above the threshold and at most four times the
    /// threshold.
    Tolerating,
    /// Everything else: a longer response time, a failure, a time that is not
    /// a number.
    Frustrated,
}

/// The zone of one sample. `Ok` holds a response time in seconds, `Err` marks
/// a failed operation.
pub open spec fn zone_of(threshold: Binary64, sample: Result<Binary64, ()>) -> Zone {
    match sample {
        Ok(time) => {
            if time.spec_le(threshold) {
                Zone::Satisfied
            } else if !time.spec_is_nan() && !threshold.spec_is_nan() && time.value() <= saturate(
                4 * threshold.value(),
            ) {
                Zone::Tolerating
            } else {
                Zone::Frustrated
            }
        },
        Err(_) => Zone::Frustrated,
    }
}

/// How many of the samples fall into the zone.
pub open spec fn count_in_zone(threshold: Binary64, samples: Seq<Result<Binary64, ()>>, zone: Zone) -> nat
    decreases samples.len(),
{
    if samples.len() == 0 {
        0
    } else {
        let rest = count_in_zone(threshold, samples.drop_last(), zone);
        if zone_of(threshold, samples.last()) == zone {
            rest + 1
        } else {
            rest
        }
    }
}

/// The zone of one sample.
pub fn classify(threshold: Binary64, sample: Result<Binary64, ()>) -> (zone: Zone)
    ensures
        zone == zone_of(threshold, sample),
{
    match sample {
        Ok(time) => {
            if time.le(threshold) {
                Zone::Satisfied
            } else if time.le(threshold.quadruple()) {
                Zone::Tolerating
            } else {
                Zone::Frustrated
            }
        },
        Err(_) => Zone::Frustrated,
    }
}

/// Below this many samples a group is small.
pub const SMALL_GROUP_LIMIT: u64 = 100;

/// The encoding of 2.0.
pub const TWO_BITS: u64 = 0x4000_0000_0000_0000;

/// The score as the accumulator computes it, in units of 2^-1074: the
/// satisfied count plus half the tolerating count, divided by the total,
/// each count converted to binary64 and each operation rounded.
pub open spec fn score_magnitude(satisfied: nat, tolerating: nat, total: nat) -> nat {
    quotient(
        sum(from_integer(satisfied), quotient(from_integer(tolerating), 2 * unit())),
        from_integer(total),
    )
}

/// Why `with_hit_rate` gave no accumulator.
#[derive(Clone, Copy, Debug, PartialEq, Eq, Structural)]
pub enum HitRateError {
    /// The assumed hit rate is not a number from zero up to, but not
    /// including, one.
    RateOutOfRange,
    /// With the simulated hits the number of samples does not fit in a `u64`.
    TooManyHits,
}

/// Apdex counts after samples were sorted into the three zones.
#[derive(Debug)]
pub struct Apdex {
    /// Boundary between the satisfied and the tolerating zone, in seconds.
    pub threshold: Binary64,
    /// Count of response times in the satisfied zone.
    pub satisfied: u64,
    /// Count of response times in the tolerating zone.
    pub tolerating: u64,
    /// Count of response times in the frustrated zone, failures included.
    pub frustrated: u64,
}

impl Apdex {
    /// The number of samples counted so far.
    pub open spec fn spec_total(&self) -> nat {
        (self.satisfied + self.tolerating + self.frustrated) as nat
    }

    /// The three counts add up to a number that a `u64` holds.
    pub open spec fn well_formed(&self) -> bool {
        self.spec_total() <= u64::MAX
    }

    /// The Apdex score: nothing without samples, else the binary64 number
    /// with magnitude `score_magnitude`.
    pub open spec fn spec_score(&self) -> Option<Binary64> {
        if self.spec_total() == 0 {
            None
        } else {
            Some(
                Binary64::positive(
                    score_magnitude(self.satisfied as nat, self.tolerating as nat, self.spec_total()),
                ),
            )
        }
    }

    /// A new accumulator with the given threshold and no samples.
    pub fn new(threshold: Binary64) -> (r: Apdex)
        ensures
            r.threshold == threshold,
            r.satisfied == 0,
            r.tolerating == 0,
            r.frustrated == 0,
    {
        Apdex { threshold, satisfied: 0, tolerating: 0, frustrated: 0 }
    }

    /// A new accumulator that has counted the given samples. An `Err` sample
    /// counts as frustrated.
    pub fn with_respnse_times(threshold: Binary64, response_times: &[Result<Binary64, ()>]) -> (r: Apdex)
        ensures
            r.threshold == threshold,
            r.satisfied == count_in_zone(threshold, response_times@, Zone::Satisfied),
            r.tolerating == count_in_zone(threshold, response_times@, Zone::Tolerating),
            r.frustrated == count_in_zone(threshold, response_times@, Zone::Frustrated),
            r.spec_total() == response_times@.len(),
            r.well_formed(),
    {
        let mut apdex = Apdex::new(threshold);
        let mut i: usize = 0;
        while i < response_times.len()
            invariant
                i <= response_times.len(),
                apdex.threshold == threshold,
                apdex.satisfied == count_in_zone(threshold, response_times@.take(i as int), Zone::Satisfied),
                apdex.tolerating == count_in_zone(threshold, response_times@.take(i as int), Zone::Tolerating),
                apdex.frustrated == count_in_zone(threshold, response_times@.take(i as int), Zone::Frustrated),
                apdex.spec_total() == i,
            decreases response_times.len() - i,
        {
            proof {
                let next = response_times@.take(i + 1);
                assert(next.drop_last() == response_times@.take(i as int));
                assert(next.last() == response_times@[i as int]);
            }
            apdex.insert(response_times[i]);
            i += 1;
        }
        proof {
            assert(response_times@.take(i as int) == response_times@);
        }
        apdex
    }

    /// A new accumulator for samples that were taken behind a cache. The
    /// samples are the cache misses. The hits that go with them at the assumed
    /// hit rate were not measured; they are taken to be fast, and counted as
    /// satisfied.
    ///
    /// The hit rate has to be at least zero and below one, and the counts have
    /// to stay within `u64`: the result says which of the two failed.
    pub fn with_hit_rate(
        threshold: Binary64,
        assumed_hit_rate: Binary64,
        response_times: &[Result<Binary64, ()>],
    ) -> (r: Result<Apdex, HitRateError>)
        ensures
            match r {
                Ok(apdex) => {
                    &&& valid_hit_rate(assumed_hit_rate)
                    &&& apdex.well_formed()
                    &&& apdex.threshold == threshold
                    &&& apdex.satisfied == count_in_zone(threshold, response_times@, Zone::Satisfied)
                        + simulated_hits(response_times@.len(), assumed_hit_rate.magnitude())
                    &&& apdex.tolerating == count_in_zone(threshold, response_times@, Zone::Tolerating)
                    &&& apdex.frustrated == count_in_zone(threshold, response_times@, Zone::Frustrated)
                },
                Err(HitRateError::RateOutOfRange) => !valid_hit_rate(assumed_hit_rate),
                Err(HitRateError::TooManyHits) => {
                    &&& valid_hit_rate(assumed_hit_rate)
                    &&& response_times@.len() + simulated_hits(
                        response_times@.len(),
                        assumed_hit_rate.magnitude(),
                    ) > u64::MAX
                },
            },
    {
        let zero = Binary64::zero();
        let one = Binary64::from_bits(ONE_BITS);
        if !(zero.le(assumed_hit_rate) && assumed_hit_rate.lt(one)) {
            return Err(HitRateError::RateOutOfRange);
        }
        let mut apdex = Self::with_respnse_times(threshold, response_times);
        let misses: u64 = apdex.total();
        let hits: u64 = hits_for(misses, assumed_hit_rate);
        if hits > u64::MAX - misses {
            return Err(HitRateError::TooManyHits);
        }
        apdex.satisfied += hits;
        Ok(apdex)
    }

    /// Counts one sample in its zone. An `Err` sample counts as frustrated.
    pub fn insert(&mut self, response_time: Result<Binary64, ()>)
        requires
            old(self).spec_total() < u64::MAX,
        ensures
            final(self).threshold == old(self).threshold,
            final(self).spec_total() == old(self).spec_total() + 1,
            final(self).satisfied == old(self).satisfied + (if zone_of(old(self).threshold, response_time)
                == Zone::Satisfied {
                1int
            } else {
                0int
            }),
            final(self).tolerating == old(self).tolerating + (if zone_of(
                old(self).threshold,
                response_time,
            ) == Zone::Tolerating {
                1int
            } else {
                0int
            }),
            final(self).frustrated == old(self).frustrated + (if zone_of(
                old(self).threshold,
                response_time,
            ) == Zone::Frustrated {
                1int
            } else {
                0int
            }),
    {
        match classify(self.threshold, response_time) {
            Zone::Satisfied => {
                self.satisfied += 1;
            },
            Zone::Tolerating => {
                self.tolerating += 1;
            },
            Zone::Frustrated => {
                self.frustrated += 1;
            },
        }
    }

    /// Total number of samples counted.
    pub fn total(&self) -> (r: u64)
        requires
            self.well_formed(),
        ensures
            r == self.spec_total(),
    {
        self.satisfied + self.tolerating + self.frustrated
    }

    /// True if no sample was counted.
    pub fn no_samples(&self) -> (r: bool)
        requires
            self.well_formed(),
        ensures
            r == (self.spec_total() == 0),
    {
        self.total() == 0
    }

    /// The Apdex score, or `None` if no sample was counted.
    #[verifier::when_used_as_spec(spec_score)]
    pub fn score(&self) -> (r: Option<Binary64>)
        requires
            self.well_formed(),
        ensures
            r == self.spec_score(),
            r is None <==> self.spec_total() == 0,
            r matches Some(x) ==> !x.is_negative() && x.is_finite() && x.magnitude() == score_magnitude(
                self.satisfied as nat,
                self.tolerating as nat,
                self.spec_total(),
            ),
            r matches Some(x) ==> 0 <= x.value() <= unit(),
    {
        if self.no_samples() {
            return None;
        }
        proof {
            crate::score_range::law_score_at_most_one(
                self.satisfied as nat,
                self.tolerating as nat,
                self.spec_total(),
            );
        }
        let satisfied = Binary64::from_u64(self.satisfied);
        let tolerating = Binary64::from_u64(self.tolerating);
        let two = Binary64::from_bits(TWO_BITS);
        proof {
            lemma_powers_of_two();
            lemma_pow2_adds(52, 1023);
            lemma_pow2_unfold(1075);
            lemma_pow2_pos(1074);
            assert(two.magnitude() == 2 * unit());
            assert(two.scale() == 1023);
            assert(0 * unit() == 0) by (nonlinear_arith);
            lemma_nearest_of_zero(1);
            if self.satisfied > 0 {
                lemma_from_integer_bounds(self.satisfied as nat);
                lemma_scale_range(satisfied, 1074, 1138);
            } else {
                assert(satisfied.magnitude() == 0);
            }
            if self.tolerating > 0 {
                lemma_from_integer_bounds(self.tolerating as nat);
                lemma_scale_range(tolerating, 1074, 1138);
            } else {
                assert(tolerating.magnitude() == 0);
            }
        }
        let half: Binary64 = divide(tolerating, two);
        proof {
            lemma_pow2_pos(1074);
            if self.tolerating > 0 {
                // half of a number between 1 and 2^64 is between 1/2 and 2^63
                lemma_power_is_magnitude(1073);
                lemma_power_is_magnitude(1137);
                lemma_pow2_unfold(1074);
                lemma_pow2_unfold(1138);
                let t = tolerating.magnitude();
                let u = unit();
                assert(pow2(1073) * (2 * u) <= t * u <= pow2(1137) * (2 * u)) by (nonlinear_arith)
                    requires
                        2 * pow2(1073) <= t <= 2 * pow2(1137),
                        u >= 0,
                ;
                lemma_nearest_between(t * u, 2 * u, pow2(1073), pow2(1137));
                lemma_scale_range(half, 1073, 1137);
            } else {
                assert(0 * unit() == 0) by (nonlinear_arith);
                lemma_nearest_of_zero(1);
                lemma_nearest_of_zero(2 * unit());
                assert(tolerating.magnitude() == 0);
                assert(tolerating.magnitude() * unit() == 0) by (nonlinear_arith)
                    requires
                        tolerating.magnitude() == 0,
                ;
                assert(half.magnitude() == 0);
            }
        }
        let weighted: Binary64 = plus(satisfied, half);
        let total = Binary64::from_u64(self.total());
        proof {
            lemma_pow2_pos(1074);
            lemma_from_integer_bounds(self.spec_total());
            lemma_scale_range(total, 1074, 1138);
            let w = satisfied.magnitude() + half.magnitude();
            if w > 0 {
                lemma_power_is_magnitude(1073);
                lemma_power_is_magnitude(1139);
                lemma_pow2_unfold(1074);
                lemma_pow2_unfold(1138);
                lemma_pow2_unfold(1139);
                if self.satisfied == 0 {
                    assert(0 * unit() == 0) by (nonlinear_arith);
                    lemma_nearest_of_zero(1);
                }
                assert(pow2(1073) * 1 <= w <= pow2(1139) * 1) by (nonlinear_arith)
                    requires
                        pow2(1073) <= w <= pow2(1139),
                ;
                lemma_nearest_between(w, 1, pow2(1073), pow2(1139));
                lemma_scale_range(weighted, 1073, 1139);
            } else {
                lemma_nearest_of_zero(1);
            }
        }
        let score: Binary64 = divide(weighted, total);
        proof {
            lemma_positive_of_magnitude(score);
        }
        Some(score)
    }

    /// The rating of the score.
    pub fn rating(&self) -> (r: Rating)
        requires
            self.well_formed(),
        ensures
            r == Rating::spec_of(self.spec_score()),
    {
        Rating::of(self.score())
    }

    /// The rating word: Excellent, Good, Fair, Poor, Unacceptable or
    /// NoSample.
    pub fn rating_word(&self) -> (r: &'static str)
        requires
            self.well_formed(),
        ensures
            r@ == Rating::spec_of(self.spec_score()).spec_word(),
    {
        self.rating().word()
    }

    /// The colour category of the score; none for a small group.
    pub fn display_color(&self) -> (r: DisplayColor)
        requires
            self.well_formed(),
        ensures
            r == DisplayColor::spec_of(self.spec_score(), 1 <= self.spec_total() <= 99),
    {
        DisplayColor::of(self.score(), self.small_group())
    }

    /// The colour of the `yansi` crate that stands for the score.
    pub fn color(&self) -> (r: yansi::Color)
        requires
            self.well_formed(),
        ensures
            r == DisplayColor::spec_of(self.spec_score(), 1 <= self.spec_total() <= 99).spec_terminal_color(),
    {
        self.display_color().terminal_color()
    }

    /// True if at least one and fewer than a hundred samples were counted.
    pub fn small_group(&self) -> (r: bool)
        requires
            self.well_formed(),
        ensures
            r == (1 <= self.spec_total() <= 99),
    {
        let total: u64 = self.total();
        total > 0 && total < SMALL_GROUP_LIMIT
    }

    /// The text that ends both outputs: the threshold in square brackets, and
    /// a star behind it for a small group.
    fn write_threshold(&self, out: &mut String)
        requires
            self.well_formed(),
        ensures
            final(out)@ == old(out)@ + threshold_text(self.threshold, 1 <= self.spec_total() <= 99),
    {
        let low_sample_indicator: &'static str = if self.small_group() {
            "*"
        } else {
            ""
        };
        let precision: u8 = if self.threshold.lt(Binary64::from_bits(TEN_BITS)) {
            1
        } else {
            0
        };
        let number: String = self.threshold.to_fixed(precision);
        let ghost before = out@;
        out.append(" [");
        out.append(number.as_str());
        out.append("]");
        out.append(low_sample_indicator);
        proof {
            reveal_strlit("");
            assert(""@ =~= Seq::<char>::empty());
            let small = 1 <= self.spec_total() <= 99;
            assert(out@ =~= before + threshold_text(self.threshold, small));
        }
    }

    /// The uniform output: the score with two digits behind the point, or
    /// `NS` where there is none, then the threshold in brackets, then a star
    /// for a small group.
    pub fn to_string(&self) -> (r: String)
        requires
            self.well_formed(),
        ensures
            r@ == self.uniform_output(),
    {
        let mut out: String = match self.score() {
            Some(score) => score.to_fixed(2),
            None => String::from_str("NS"),
        };
        self.write_threshold(&mut out);
        out
    }

    /// The accumulator in a form whose text is the rating output.
    pub fn score_rating(&self) -> (r: ApdexRating<'_>)
        ensures
            r.apdex() == *self,
    {
        ApdexRating(self)
    }

    /// The uniform output as a specification.
    pub open spec fn uniform_output(&self) -> Seq<char> {
        let small = 1 <= self.spec_total() <= 99;
        match self.spec_score() {
            Some(score) => fixed_text(score, 2) + threshold_text(self.threshold, small),
            None => "NS"@ + threshold_text(self.threshold, small),
        }
    }

    /// The rating output as a specification: the rating word in place of the
    /// score.
    pub open spec fn rating_output(&self) -> Seq<char> {
        Rating::spec_of(self.spec_score()).spec_word() + threshold_text(
            self.threshold,
            1 <= self.spec_total() <= 99,
        )
    }
}

/// The encoding of 4.0, the threshold of `Apdex::default()`, in seconds.
pub const DEFAULT_THRESHOLD_BITS: u64 = 0x4010_0000_0000_0000;

impl Default for Apdex {
    /// An accumulator with a threshold of four seconds and no samples.
    fn default() -> (r: Apdex)
        ensures
            r.threshold.bits == DEFAULT_THRESHOLD_BITS,
            r.satisfied == 0,
            r.tolerating == 0,
            r.frustrated == 0,
    {
        Apdex::new(Binary64::from_bits(DEFAULT_THRESHOLD_BITS))
    }
}

/// The encoding of 10.0: from here on a threshold is written without digits
/// behind the point.
pub const TEN_BITS: u64 = 0x4024_0000_0000_0000;

/// The threshold as both outputs show it: in square brackets behind a space,
/// with one digit behind the point if it is below ten and none otherwise, and
/// a star behind the bracket for a small group.
pub open spec fn threshold_text(threshold: Binary64, small_group: bool) -> Seq<char> {
    let precision: nat = if threshold.spec_lt(Binary64 { bits: TEN_BITS }) {
        1
    } else {
        0
    };
    let star = if small_group {
        "*"@
    } else {
        Seq::<char>::empty()
    };
    " ["@ + fixed_text(threshold, precision) + "]"@ + star
}

/// An accumulator whose text is the rating output: the rating word in place
/// of the score.
pub struct ApdexRating<'i>(&'i Apdex);

impl<'i> ApdexRating<'i> {
    /// The accumulator that is rated.
    pub closed spec fn apdex(&self) -> Apdex {
        *self.0
    }

    /// The rating output: the rating word, then the threshold in brackets,
    /// then a star for a small group.
    pub fn to_string(&self) -> (r: String)
        requires
            self.apdex().well_formed(),
        ensures
            r@ == self.apdex().rating_output(),
    {
        let mut out: String = String::from_str(self.0.rating_word());
        self.0.write_threshold(&mut out);
        out
    }
}

} // verus!
