use apdex::Binary64;

fn text(x: f64, precision: u8) -> String {
    Binary64::from_bits(x.to_bits()).to_fixed(precision)
}

fn expected(x: f64, precision: u8) -> String {
    format!("{:.*}", precision as usize, x)
}

#[test]
fn fixed_text_of_simple_numbers() {
    assert_eq!(text(4.0, 1), "4.0");
    assert_eq!(text(10.0, 0), "10");
    assert_eq!(text(0.75, 2), "0.75");
    assert_eq!(text(1.0, 2), "1.00");
    assert_eq!(text(0.0, 1), "0.0");
    assert_eq!(text(9.96, 1), "10.0");
    assert_eq!(text(1234.5678, 3), "1234.568");
}

#[test]
fn fixed_text_rounds_ties_to_even() {
    assert_eq!(text(0.5, 0), "0");
    assert_eq!(text(1.5, 0), "2");
    assert_eq!(text(2.5, 0), "2");
    assert_eq!(text(0.25, 1), "0.2");
    assert_eq!(text(0.75, 1), "0.8");
    assert_eq!(text(0.125, 2), "0.12");
    assert_eq!(text(0.375, 2), "0.38");
}

#[test]
fn fixed_text_rounds_the_exact_binary_value() {
    // 0.005 is a little above five thousandths as a binary64, 0.015 a little below
    assert_eq!(text(0.005, 2), "0.01");
    assert_eq!(text(0.015, 2), "0.01");
    assert_eq!(text(0.045, 2), "0.04");
}

#[test]
fn fixed_text_of_special_values() {
    assert_eq!(text(f64::NAN, 1), "NaN");
    assert_eq!(text(-f64::NAN, 0), "NaN");
    assert_eq!(text(f64::INFINITY, 0), "inf");
    assert_eq!(text(f64::NEG_INFINITY, 1), "-inf");
    assert_eq!(text(-0.0, 1), "-0.0");
    assert_eq!(text(-0.01, 1), "-0.0");
    assert_eq!(text(-2.5, 0), "-2");
}

#[test]
fn fixed_text_writes_out_large_numbers() {
    assert_eq!(text(1e22, 0), "10000000000000000000000");
    assert_eq!(text(1e23, 0), "99999999999999991611392");
    assert_eq!(text(f64::MAX, 0), expected(f64::MAX, 0));
    assert_eq!(text(f64::MAX, 0).len(), 309);
    assert_eq!(text(f64::MAX, 2), expected(f64::MAX, 2));
}

#[test]
fn fixed_text_of_tiny_numbers() {
    assert_eq!(text(f64::MIN_POSITIVE, 1), "0.0");
    assert_eq!(text(5e-324, 20), "0.00000000000000000000");
    assert_eq!(text(1e-20, 20), "0.00000000000000000001");
}

#[test]
fn fixed_text_matches_the_standard_formatter() {
    let mut samples: Vec<f64> = vec![
        0.0, 0.1, 0.2, 0.3, 0.5, 0.7, 0.85, 0.94, 0.95, 0.995, 0.9999, 1.0, 1.05, 1.15, 2.675, 3.14159, 9.95,
        9.949999, 9.99, 10.0, 10.5, 11.5, 99.5, 100.0, 1234567.891, 4503599627370496.5, 9007199254740993.0,
        1e15, 1e16, 1e17, 1e21, 1e100, 1e300, 1e-5, 1e-10, 1e-17, 1e-21, 1e-300, 4.9e-324,
    ];
    let mut x: f64 = 0.0078125;
    for _ in 0..40 {
        samples.push(x);
        samples.push(x * 1.0000001);
        samples.push(x * 3.0);
        x *= 2.5;
    }
    let mut state: u64 = 0x2545_f491_4f6c_dd1d;
    for _ in 0..2000 {
        state ^= state << 13;
        state ^= state >> 7;
        state ^= state << 17;
        samples.push(f64::from_bits(state));
        samples.push((state % 100_000) as f64 / 1000.0);
    }
    for x in samples {
        for precision in [0u8, 1, 2, 3, 7, 20] {
            assert_eq!(text(x, precision), expected(x, precision), "{:e} with {} digits", x, precision);
            assert_eq!(text(-x, precision), expected(-x, precision), "{:e} with {} digits", -x, precision);
        }
    }
}
