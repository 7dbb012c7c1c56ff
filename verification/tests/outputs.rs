use apdex::rating::{DisplayColor, Rating};
use apdex::{Apdex, Binary64};

fn seconds(x: f64) -> Binary64 {
    Binary64::from_bits(x.to_bits())
}

#[test]
fn no_score() {
    let apdex = Apdex::default();
    assert!(apdex.score().is_none());
}

#[test]
fn uniform_output_no_samples() {
    let apdex = Apdex::default();
    assert_eq!(apdex.to_string(), "NS [4.0]");
}

#[test]
fn uniform_output_no_samples_high_t() {
    let apdex = Apdex::new(seconds(10.0));
    assert_eq!(apdex.to_string(), "NS [10]");
}

#[test]
fn uniform_output_one_small_group() {
    let mut apdex = Apdex::default();
    apdex.insert(Ok(seconds(0.1)));
    assert_eq!(apdex.to_string(), "1.00 [4.0]*");
}

#[test]
fn uniform_output_one() {
    let mut apdex = Apdex::default();
    for _i in 0..100 {
        apdex.insert(Ok(seconds(0.1)));
    }
    assert_eq!(apdex.to_string(), "1.00 [4.0]");
}

#[test]
fn uniform_output() {
    let mut apdex = Apdex::default();
    for _i in 0..100 {
        apdex.insert(Ok(seconds(0.1)));
    }
    for _i in 0..100 {
        apdex.insert(Ok(seconds(5.0)));
    }
    assert_eq!(apdex.to_string(), "0.75 [4.0]");
}

#[test]
fn rating_output_no_samples_high_t() {
    let apdex = Apdex::new(seconds(10.0));
    assert_eq!(apdex.score_rating().to_string(), "NoSample [10]");
}

#[test]
fn rating_output_no_samples() {
    let apdex = Apdex::default();
    assert_eq!(apdex.score_rating().to_string(), "NoSample [4.0]");
}

#[test]
fn rating_output_small_group() {
    let mut apdex = Apdex::default();
    apdex.insert(Ok(seconds(0.1)));
    assert_eq!(apdex.score_rating().to_string(), "Excellent [4.0]*");
}

#[test]
fn rating_output() {
    let mut apdex = Apdex::default();
    for _i in 0..100 {
        apdex.insert(Ok(seconds(0.1)));
    }
    for _i in 0..100 {
        apdex.insert(Ok(seconds(5.0)));
    }
    assert_eq!(apdex.score_rating().to_string(), "Fair [4.0]");
}

#[test]
fn default_is_four_seconds_and_empty() {
    let apdex = Apdex::default();
    assert_eq!(f64::from_bits(apdex.threshold.to_bits()), 4.0);
    assert_eq!((apdex.satisfied, apdex.tolerating, apdex.frustrated), (0, 0, 0));
    assert_eq!(apdex.total(), 0);
    assert!(apdex.no_samples());
    assert!(!apdex.small_group());
}

#[test]
fn small_group_is_one_to_ninety_nine() {
    let with = |n: u64| Apdex { threshold: seconds(4.0), satisfied: n, tolerating: 0, frustrated: 0 };
    assert!(!with(0).small_group());
    assert!(with(1).small_group());
    assert!(with(99).small_group());
    assert!(!with(100).small_group());
    let spread = Apdex { threshold: seconds(4.0), satisfied: 33, tolerating: 33, frustrated: 33 };
    assert!(spread.small_group());
    assert_eq!(spread.total(), 99);
}

#[test]
fn rating_bands_are_closed_on_the_left() {
    let with = |s: u64, f: u64| Apdex { threshold: seconds(4.0), satisfied: s, tolerating: 0, frustrated: f };
    assert_eq!(with(94, 6).rating_word(), "Excellent");
    assert_eq!(with(939, 61).rating_word(), "Good");
    assert_eq!(with(85, 15).rating_word(), "Good");
    assert_eq!(with(849, 151).rating_word(), "Fair");
    assert_eq!(with(70, 30).rating_word(), "Fair");
    assert_eq!(with(699, 301).rating_word(), "Poor");
    assert_eq!(with(50, 50).rating_word(), "Poor");
    assert_eq!(with(499, 501).rating_word(), "Unacceptable");
    assert_eq!(with(0, 7).rating_word(), "Unacceptable");
    assert_eq!(with(0, 0).rating_word(), "NoSample");
    assert_eq!(with(94, 6).rating(), Rating::Excellent);
    assert_eq!(with(0, 0).rating(), Rating::NoSample);
}

#[test]
fn tolerating_counts_half() {
    let apdex = Apdex { threshold: seconds(4.0), satisfied: 0, tolerating: 200, frustrated: 0 };
    assert_eq!(f64::from_bits(apdex.score().unwrap().to_bits()), 0.5);
    assert_eq!(apdex.rating_word(), "Poor");
}

#[test]
fn colors_by_band() {
    let with = |s: u64, f: u64| Apdex { threshold: seconds(4.0), satisfied: s, tolerating: 0, frustrated: f };
    assert_eq!(with(0, 0).display_color(), DisplayColor::Unset);
    assert_eq!(with(99, 0).display_color(), DisplayColor::Unset);
    assert_eq!(with(940, 60).display_color(), DisplayColor::Cyan);
    assert_eq!(with(850, 150).display_color(), DisplayColor::Green);
    assert_eq!(with(700, 300).display_color(), DisplayColor::Purple);
    assert_eq!(with(500, 500).display_color(), DisplayColor::Red);
    assert_eq!(with(100, 900).display_color(), DisplayColor::Red);
    assert!(with(0, 0).color() == yansi::Color::Unset);
    assert!(with(940, 60).color() == yansi::Color::Cyan);
    assert!(with(850, 150).color() == yansi::Color::Green);
    assert!(with(700, 300).color() == yansi::Color::Purple);
    assert!(with(100, 900).color() == yansi::Color::Red);
    assert!(DisplayColor::Purple.terminal_color() == yansi::Color::Purple);
}

#[test]
fn outputs_follow_the_standard_formatter() {
    let thresholds = [0.5, 1.0, 2.5, 4.0, 9.94, 9.95, 9.99, 10.0, 10.4, 10.5, 12.5, 250.0, 0.05, 0.25, 0.0];
    let counts: [(u64, u64, u64); 8] =
        [(1, 0, 199), (3, 0, 197), (5, 0, 195), (7, 1, 192), (1, 1, 1), (2, 1, 0), (0, 0, 0), (123456, 7890, 12)];
    for t in thresholds {
        for (s, tol, f) in counts {
            let apdex = Apdex { threshold: seconds(t), satisfied: s, tolerating: tol, frustrated: f };
            let total = s + tol + f;
            let number = if total == 0 {
                String::from("NS")
            } else {
                format!("{:.2}", (s as f64 + (tol as f64 / 2.0)) / total as f64)
            };
            let star = if total > 0 && total < 100 { "*" } else { "" };
            let bracket = if t < 10.0 { format!(" [{:.1}]{}", t, star) } else { format!(" [{:.0}]{}", t, star) };
            assert_eq!(apdex.to_string(), format!("{}{}", number, bracket));
            assert_eq!(
                apdex.score_rating().to_string(),
                format!("{}{}", apdex.rating_word(), bracket)
            );
        }
    }
}

#[test]
fn threshold_that_is_no_number_is_written_as_such() {
    let apdex = Apdex::new(seconds(f64::NAN));
    assert_eq!(apdex.to_string(), "NS [NaN]");
    let apdex = Apdex::new(seconds(f64::INFINITY));
    assert_eq!(apdex.to_string(), "NS [inf]");
    let apdex = Apdex::new(seconds(-1.0));
    assert_eq!(apdex.to_string(), "NS [-1.0]");
}
