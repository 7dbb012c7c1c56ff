use apdex::apdex::{classify, HitRateError, Zone};
use apdex::hit_rate::hits_for;
use apdex::{Apdex, Binary64};

fn seconds(x: f64) -> Binary64 {
    Binary64::from_bits(x.to_bits())
}

fn reference_zone(threshold: f64, time: f64) -> Zone {
    if time <= threshold {
        Zone::Satisfied
    } else if time <= threshold * 4.0 {
        Zone::Tolerating
    } else {
        Zone::Frustrated
    }
}

fn reference_hits(misses: u64, rate: f64) -> u64 {
    (misses as f64 / (1.0 - rate) - misses as f64).ceil() as u64
}

#[test]
fn counts_of_nine_samples() {
    let times = [0.0, 0.1, 0.2, 0.5, 1.0, 4.0, 3.0, 2.0, 5.0];
    let samples: Vec<Result<Binary64, ()>> = times.iter().map(|t| Ok(seconds(*t))).collect();
    let apdex = Apdex::with_respnse_times(seconds(1.0), &samples);
    assert_eq!((apdex.satisfied, apdex.tolerating, apdex.frustrated), (5, 3, 1));
    assert_eq!(apdex.total(), 9);
    assert_eq!(f64::from_bits(apdex.score().unwrap().to_bits()), 6.5 / 9.0);
    assert_eq!(apdex.rating_word(), "Fair");
}

#[test]
fn counts_with_a_failure() {
    let times = [0.0, 0.1, 0.2, 0.5, 1.0, 4.0, 3.0, 2.0];
    let mut samples: Vec<Result<Binary64, ()>> = times.iter().map(|t| Ok(seconds(*t))).collect();
    samples.push(Err(()));
    let apdex = Apdex::with_respnse_times(seconds(1.0), &samples);
    assert_eq!((apdex.satisfied, apdex.tolerating, apdex.frustrated), (5, 3, 1));
    assert_eq!(f64::from_bits(apdex.score().unwrap().to_bits()), 6.5 / 9.0);
}

#[test]
fn counts_of_two_hundred_samples() {
    let mut samples: Vec<Result<Binary64, ()>> = Vec::new();
    for _ in 0..100 {
        samples.push(Ok(seconds(0.1)));
    }
    for _ in 0..100 {
        samples.push(Ok(seconds(5.0)));
    }
    let apdex = Apdex::with_respnse_times(seconds(4.0), &samples);
    assert_eq!((apdex.satisfied, apdex.tolerating, apdex.frustrated), (100, 100, 0));
    assert_eq!(f64::from_bits(apdex.score().unwrap().to_bits()), 0.75);
}

#[test]
fn boundaries_of_the_zones() {
    let threshold = seconds(1.5);
    assert_eq!(classify(threshold, Ok(seconds(1.5))), Zone::Satisfied);
    assert_eq!(classify(threshold, Ok(seconds(1.5000000000000002))), Zone::Tolerating);
    assert_eq!(classify(threshold, Ok(seconds(6.0))), Zone::Tolerating);
    assert_eq!(classify(threshold, Ok(seconds(6.000000000000001))), Zone::Frustrated);
    assert_eq!(classify(threshold, Err(())), Zone::Frustrated);
}

#[test]
fn times_that_are_no_numbers_are_frustrated() {
    assert_eq!(classify(seconds(4.0), Ok(seconds(f64::NAN))), Zone::Frustrated);
    assert_eq!(classify(seconds(4.0), Ok(seconds(-f64::NAN))), Zone::Frustrated);
    assert_eq!(classify(seconds(f64::NAN), Ok(seconds(1.0))), Zone::Frustrated);
    assert_eq!(classify(seconds(4.0), Ok(seconds(f64::INFINITY))), Zone::Frustrated);
    assert_eq!(classify(seconds(4.0), Ok(seconds(f64::NEG_INFINITY))), Zone::Satisfied);
    assert_eq!(classify(seconds(4.0), Ok(seconds(-1.0))), Zone::Satisfied);
}

#[test]
fn classification_matches_hardware_comparison() {
    let values = [
        0.0,
        -0.0,
        5e-324,
        1e-320,
        2.2250738585072014e-308,
        1.1125369292536007e-308,
        5.562684646268003e-309,
        1e-300,
        0.1,
        0.25,
        1.0,
        1.0000000000000002,
        3.9999999999999996,
        4.0,
        4.000000000000001,
        16.0,
        1e300,
        4.4942328371557893e307,
        4.49423283715579e307,
        8.98846567431158e307,
        f64::MAX,
        f64::INFINITY,
        f64::NAN,
    ];
    for t in values {
        for x in values {
            for (threshold, time) in [(t, x), (-t, x), (t, -x), (-t, -x)] {
                assert_eq!(
                    classify(seconds(threshold), Ok(seconds(time))),
                    reference_zone(threshold, time),
                    "threshold {:e}, time {:e}",
                    threshold,
                    time
                );
            }
        }
    }
}

#[test]
fn order_of_samples_does_not_matter() {
    let times = [0.0, 9.0, 0.2, 5.0, 1.0, 4.0, 3.0, 2.0, 0.5];
    let mut samples: Vec<Result<Binary64, ()>> = times.iter().map(|t| Ok(seconds(*t))).collect();
    samples.push(Err(()));
    let forward = Apdex::with_respnse_times(seconds(1.0), &samples);
    samples.reverse();
    let backward = Apdex::with_respnse_times(seconds(1.0), &samples);
    assert_eq!(
        (forward.satisfied, forward.tolerating, forward.frustrated),
        (backward.satisfied, backward.tolerating, backward.frustrated)
    );
    assert_eq!(forward.total(), 10);
    assert_eq!(forward.satisfied + forward.tolerating + forward.frustrated, 10);
}

#[test]
fn hits_for_common_rates() {
    assert_eq!(hits_for(9, seconds(0.5)), 9);
    assert_eq!(hits_for(10, seconds(0.75)), 30);
    assert_eq!(hits_for(4, seconds(0.2)), 1);
    assert_eq!(hits_for(9, seconds(0.9)), 82);
    assert_eq!(hits_for(0, seconds(0.5)), 0);
    assert_eq!(hits_for(7, seconds(0.0)), 0);
    assert_eq!(hits_for(7, seconds(-0.0)), 0);
}

#[test]
fn hits_match_hardware_arithmetic() {
    let rates = [
        0.0,
        5e-324,
        1e-300,
        1e-20,
        1.1102230246251565e-16,
        5.551115123125783e-17,
        1e-9,
        0.001,
        0.1,
        0.2,
        0.25,
        0.3,
        1.0 / 3.0,
        0.5,
        0.6,
        0.75,
        0.9,
        0.95,
        0.99,
        0.999,
        0.999999,
        0.9999999999,
        0.9999999999999999,
    ];
    let counts: [u64; 16] = [
        0,
        1,
        2,
        3,
        4,
        9,
        10,
        99,
        100,
        1000,
        123456789,
        (1 << 53) - 1,
        1 << 53,
        (1 << 53) + 1,
        (1 << 62) + 1025,
        u64::MAX,
    ];
    for rate in rates {
        for misses in counts {
            assert_eq!(hits_for(misses, seconds(rate)), reference_hits(misses, rate), "{} at {:e}", misses, rate);
        }
    }
    let mut state: u64 = 0x9e37_79b9_7f4a_7c15;
    for _ in 0..3000 {
        state ^= state << 13;
        state ^= state >> 7;
        state ^= state << 17;
        let rate = (state >> 11) as f64 / (1u64 << 53) as f64;
        let misses = state % 1_000_003;
        assert_eq!(hits_for(misses, seconds(rate)), reference_hits(misses, rate), "{} at {:e}", misses, rate);
    }
}

#[test]
fn with_hit_rate_adds_hits_to_satisfied() {
    let times = [0.0, 0.1, 0.2, 0.5, 1.0, 4.0, 3.0, 2.0, 5.0];
    let samples: Vec<Result<Binary64, ()>> = times.iter().map(|t| Ok(seconds(*t))).collect();
    let apdex = Apdex::with_hit_rate(seconds(1.0), seconds(0.5), &samples).unwrap();
    assert_eq!((apdex.satisfied, apdex.tolerating, apdex.frustrated), (5 + 9, 3, 1));
    let apdex = Apdex::with_hit_rate(seconds(1.0), seconds(0.0), &samples).unwrap();
    assert_eq!((apdex.satisfied, apdex.tolerating, apdex.frustrated), (5, 3, 1));
    let apdex = Apdex::with_hit_rate(seconds(1.0), seconds(0.9), &samples).unwrap();
    assert_eq!((apdex.satisfied, apdex.tolerating, apdex.frustrated), (5 + 82, 3, 1));
}

#[test]
fn with_hit_rate_rejects_rates_outside_zero_to_one() {
    let samples: Vec<Result<Binary64, ()>> = vec![Ok(seconds(0.1)), Err(())];
    for rate in [1.0, 1.5, -0.1, f64::INFINITY, f64::NEG_INFINITY, f64::NAN, 1.0000000000000002] {
        let result = Apdex::with_hit_rate(seconds(1.0), seconds(rate), &samples);
        assert_eq!(result.err(), Some(HitRateError::RateOutOfRange), "rate {:e}", rate);
    }
    let empty: Vec<Result<Binary64, ()>> = Vec::new();
    assert_eq!(
        Apdex::with_hit_rate(seconds(1.0), seconds(1.0), &empty).err(),
        Some(HitRateError::RateOutOfRange)
    );
    assert!(Apdex::with_hit_rate(seconds(1.0), seconds(0.9999999999999999), &empty).is_ok());
}

#[test]
fn with_hit_rate_reports_counts_that_do_not_fit() {
    let samples: Vec<Result<Binary64, ()>> = (0..4096).map(|_| Ok(seconds(0.1))).collect();
    let result = Apdex::with_hit_rate(seconds(1.0), seconds(0.9999999999999999), &samples);
    assert_eq!(result.err(), Some(HitRateError::TooManyHits));
    let few: Vec<Result<Binary64, ()>> = (0..1024).map(|_| Ok(seconds(0.1))).collect();
    let apdex = Apdex::with_hit_rate(seconds(1.0), seconds(0.9999999999999999), &few).unwrap();
    assert_eq!(apdex.satisfied, 1024 + reference_hits(1024, 0.9999999999999999));
}
