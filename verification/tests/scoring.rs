use apdex::{Apdex, Binary64};

fn seconds(x: f64) -> Binary64 {
    Binary64::from_bits(x.to_bits())
}

fn number(x: Binary64) -> f64 {
    f64::from_bits(x.to_bits())
}

fn reference_score(satisfied: u64, tolerating: u64, frustrated: u64) -> f64 {
    let total = satisfied + tolerating + frustrated;
    (satisfied as f64 + (tolerating as f64 / 2.0)) / total as f64
}

#[test]
fn score() {
    let times = [0.0, 0.1, 0.2, 0.5, 1.0, 4.0, 3.0, 2.0, 5.0];
    let samples: Vec<Result<Binary64, ()>> = times.iter().map(|t| Ok(seconds(*t))).collect();
    let apdex = Apdex::with_respnse_times(seconds(1.0), &samples);
    assert!(number(apdex.score().unwrap()) > 0.71);
    assert!(number(apdex.score().unwrap()) < 0.73);
}

#[test]
fn score_errors() {
    let samples: Vec<Result<Binary64, ()>> = vec![
        Ok(seconds(0.0)),
        Ok(seconds(0.1)),
        Ok(seconds(0.2)),
        Ok(seconds(0.5)),
        Ok(seconds(1.0)),
        Ok(seconds(4.0)),
        Ok(seconds(3.0)),
        Ok(seconds(2.0)),
        Err(()),
    ];
    let apdex = Apdex::with_respnse_times(seconds(1.0), &samples);
    assert!(number(apdex.score().unwrap()) > 0.71);
    assert!(number(apdex.score().unwrap()) < 0.73);
}

#[test]
fn score_matches_hardware_arithmetic() {
    let counts: [u64; 14] = [
        0,
        1,
        2,
        3,
        7,
        99,
        100,
        12345,
        (1 << 53) - 1,
        1 << 53,
        (1 << 53) + 1,
        (1 << 60) + 12345,
        (1 << 62) + 1025,
        (1 << 62) - 1,
    ];
    for s in counts.iter() {
        for t in counts.iter() {
            for f in counts.iter() {
                if s.checked_add(*t).and_then(|x| x.checked_add(*f)).is_none() {
                    continue;
                }
                let apdex = Apdex { threshold: seconds(4.0), satisfied: *s, tolerating: *t, frustrated: *f };
                let got = apdex.score();
                if s + t + f == 0 {
                    assert!(got.is_none());
                } else {
                    assert_eq!(got.unwrap().to_bits(), reference_score(*s, *t, *f).to_bits(), "{} {} {}", s, t, f);
                }
            }
        }
    }
}

#[test]
fn conversion_matches_hardware() {
    let mut n: u64 = 1;
    for i in 0..64 {
        for delta in [0u64, 1, 2, 3, 1023, 1024, 1025, 2047, 2048] {
            for v in [n.wrapping_add(delta), n.wrapping_sub(delta), n.wrapping_mul(3).wrapping_add(delta)] {
                assert_eq!(Binary64::from_u64(v).to_bits(), (v as f64).to_bits(), "{} (step {})", v, i);
            }
        }
        n = n.wrapping_mul(2);
    }
    assert_eq!(Binary64::from_u64(0).to_bits(), 0);
    assert_eq!(Binary64::from_u64(u64::MAX).to_bits(), (u64::MAX as f64).to_bits());
}

#[test]
fn color_follows_the_score() {
    let excellent = Apdex { threshold: seconds(4.0), satisfied: 100, tolerating: 0, frustrated: 0 };
    assert!(excellent.color() == yansi::Color::Cyan);
    let small = Apdex { threshold: seconds(4.0), satisfied: 99, tolerating: 0, frustrated: 0 };
    assert!(small.color() == yansi::Color::Unset);
}

#[test]
fn score_is_between_zero_and_one() {
    let counts: [u64; 10] =
        [0, 1, 2, 1024, 2048, (1 << 53) + 1, (1 << 62) + 1025, (1 << 63) + 1025, (1 << 63) - 1024, 1 << 63];
    for s in counts.iter() {
        for t in counts.iter() {
            for f in [0u64, 1, 1 << 40] {
                let total = s.checked_add(*t).and_then(|x| x.checked_add(f));
                if total.is_none() || total == Some(0) {
                    continue;
                }
                let apdex = Apdex { threshold: seconds(4.0), satisfied: *s, tolerating: *t, frustrated: f };
                let score = number(apdex.score().unwrap());
                assert!(score >= 0.0 && score <= 1.0, "{} {} {} gives {}", s, t, f, score);
            }
        }
    }
    // the satisfied count is rounded up here, and the score is still one
    let rounded_up = Apdex { threshold: seconds(4.0), satisfied: (1 << 63) + 1025, tolerating: 1, frustrated: 0 };
    assert_eq!(number(rounded_up.score().unwrap()), 1.0);
    let all_frustrated = Apdex { threshold: seconds(4.0), satisfied: 0, tolerating: 0, frustrated: 12 };
    assert_eq!(number(all_frustrated.score().unwrap()), 0.0);
}
