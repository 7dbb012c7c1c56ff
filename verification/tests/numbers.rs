use apdex::Binary64;

fn number(x: f64) -> Binary64 {
    Binary64::from_bits(x.to_bits())
}

fn values() -> Vec<f64> {
    let mut values = vec![
        0.0,
        5e-324,
        1e-310,
        5.562684646268003e-309,
        1.1125369292536007e-308,
        2.2250738585072009e-308,
        2.2250738585072014e-308,
        1e-300,
        0.1,
        0.5,
        0.94,
        1.0,
        1.0000000000000002,
        4.0,
        10.0,
        1e22,
        4.4942328371557893e307,
        4.49423283715579e307,
        f64::MAX,
        f64::INFINITY,
        f64::NAN,
    ];
    let negatives: Vec<f64> = values.iter().map(|x| -x).collect();
    values.extend(negatives);
    values
}

#[test]
fn bits_go_in_and_out_unchanged() {
    for x in values() {
        assert_eq!(number(x).to_bits(), x.to_bits());
    }
    assert_eq!(Binary64::zero().to_bits(), 0);
}

#[test]
fn comparisons_match_hardware() {
    for x in values() {
        assert_eq!(number(x).is_nan(), x.is_nan());
        for y in values() {
            assert_eq!(number(x).le(number(y)), x <= y, "{:e} <= {:e}", x, y);
            assert_eq!(number(x).lt(number(y)), x < y, "{:e} < {:e}", x, y);
            assert_eq!(number(x).ge(number(y)), x >= y, "{:e} >= {:e}", x, y);
        }
    }
}

#[test]
fn zeros_compare_equal_and_nan_compares_false() {
    assert!(number(0.0).le(number(-0.0)));
    assert!(number(-0.0).le(number(0.0)));
    assert!(!number(0.0).lt(number(-0.0)));
    assert!(!number(f64::NAN).le(number(f64::NAN)));
    assert!(!number(f64::NAN).ge(number(1.0)));
    assert!(!number(1.0).lt(number(f64::NAN)));
}

#[test]
fn quadruple_matches_hardware() {
    for x in values() {
        let product = number(x).quadruple();
        if x.is_nan() {
            assert!(product.is_nan());
        } else {
            assert_eq!(product.to_bits(), (x * 4.0).to_bits(), "4 * {:e}", x);
        }
    }
    assert_eq!(number(1.5).quadruple().to_bits(), 6.0f64.to_bits());
    assert_eq!(number(f64::MAX).quadruple().to_bits(), f64::INFINITY.to_bits());
    assert_eq!(number(-f64::MAX).quadruple().to_bits(), f64::NEG_INFINITY.to_bits());
}
