use momentum_backtest::{days_long, momentum_positions, FLAT, LONG};

/// Prices as the bit patterns the library takes them in.
fn bits(prices: &[f64]) -> Vec<u64> {
    prices.iter().map(|p| p.to_bits()).collect()
}

#[test]
fn momentum_positions_alignment_and_lookahead() {
    // prices: index 0..4
    let prices = [1.0, 2.0, 3.0, 4.0, 1.0];
    let pos = momentum_positions(&bits(&prices), 2);
    // one position per daily return (n - 1 = 4)
    assert_eq!(pos.len(), prices.len() - 1);
    // j<2 -> flat; j=2: p[2]=3>p[0]=1 -> long; j=3: p[3]=4>p[1]=2 -> long
    assert_eq!(pos, vec![FLAT, FLAT, LONG, LONG]);
}

#[test]
fn momentum_positions_flat_when_below() {
    // Strictly decreasing -> never long after warmup.
    let prices = [5.0, 4.0, 3.0, 2.0, 1.0];
    let pos = momentum_positions(&bits(&prices), 1);
    assert_eq!(pos, vec![FLAT, FLAT, FLAT, FLAT]);
}

#[test]
fn fewer_than_two_prices_give_no_positions() {
    assert!(momentum_positions(&[], 3).is_empty());
    assert!(momentum_positions(&bits(&[42.0]), 0).is_empty());
}

#[test]
fn zero_lookback_is_always_flat() {
    let pos = momentum_positions(&bits(&[1.0, 2.0, 3.0]), 0);
    assert_eq!(pos, vec![FLAT, FLAT]);
}

#[test]
fn lookback_longer_than_history_is_flat() {
    let pos = momentum_positions(&bits(&[1.0, 2.0, 3.0, 4.0]), 10);
    assert_eq!(pos, vec![FLAT, FLAT, FLAT]);
}

#[test]
fn last_price_never_decides_a_position() {
    // The final close has no following day to hold a position over.
    let a = momentum_positions(&bits(&[1.0, 2.0, 3.0, 100.0]), 1);
    let b = momentum_positions(&bits(&[1.0, 2.0, 3.0, -100.0]), 1);
    assert_eq!(a, b);
    assert_eq!(a, vec![FLAT, LONG, LONG]);
}

#[test]
fn uptrend_goes_long_after_warmup() {
    let prices: Vec<f64> = (0..30).map(|i| 100.0 * 1.01_f64.powi(i)).collect();
    let pos = momentum_positions(&bits(&prices), 5);
    assert_eq!(pos.len(), 29);
    assert!(pos[..5].iter().all(|&p| p == FLAT));
    assert!(pos[5..].iter().all(|&p| p == LONG));
}

#[test]
fn nan_price_is_never_above() {
    let prices = [1.0, f64::NAN, 3.0, 4.0];
    let pos = momentum_positions(&bits(&prices), 1);
    // j=1: NaN > 1 false; j=2: 3 > NaN false
    assert_eq!(pos, vec![FLAT, FLAT, FLAT]);
}

#[test]
fn signed_zeros_are_equal_prices() {
    let pos = momentum_positions(&bits(&[-0.0, 0.0, -0.0, 1.0]), 1);
    assert_eq!(pos, vec![FLAT, FLAT, FLAT]);
}

#[test]
fn days_long_counts_held_days() {
    assert_eq!(days_long(&[]), 0);
    assert_eq!(days_long(&[FLAT, LONG, LONG, FLAT, LONG]), 3);
    let pos = momentum_positions(&bits(&[1.0, 2.0, 3.0, 4.0, 1.0]), 2);
    assert_eq!(days_long(&pos), 2);
}
