use momentum_backtest::price_above;

fn above(a: f64, b: f64) -> bool {
    price_above(a.to_bits(), b.to_bits())
}

#[test]
fn price_above_matches_float_comparison() {
    let values = [
        0.0,
        -0.0,
        1.0,
        -1.0,
        0.5,
        -2.5,
        1e-310,
        -1e-310,
        f64::MAX,
        f64::MIN,
        f64::MIN_POSITIVE,
        f64::INFINITY,
        f64::NEG_INFINITY,
        f64::NAN,
        -f64::NAN,
        100.0,
        110.0,
        99.0,
    ];
    for &a in &values {
        for &b in &values {
            assert_eq!(above(a, b), a > b, "{} > {}", a, b);
        }
    }
}

#[test]
fn price_above_basic_cases() {
    assert!(above(2.0, 1.0));
    assert!(!above(1.0, 2.0));
    assert!(!above(1.0, 1.0));
    assert!(above(1.0, -1.0));
    assert!(above(-1.0, -2.0));
    assert!(!above(0.0, -0.0));
    assert!(!above(-0.0, 0.0));
    assert!(!above(f64::NAN, 1.0));
    assert!(!above(1.0, f64::NAN));
    assert!(above(f64::INFINITY, f64::MAX));
}
