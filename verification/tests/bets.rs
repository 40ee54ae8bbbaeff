use nba_odds::bets::{is_pick, ml_fits, ml_win_amount, PICK_FROM_BITS, PICK_TO_BITS};

#[test]
fn profit_of_a_moneyline() {
    assert_eq!(ml_win_amount("+390"), Some((390, 1)));
    assert_eq!(ml_win_amount("-220"), Some((10_000, 220)));
    assert_eq!(ml_win_amount(" 150 "), Some((150, 1)));
    assert_eq!(ml_win_amount("0"), None);
    assert_eq!(ml_win_amount("-"), None);
    assert_eq!(ml_win_amount("OFF"), None);
    assert_eq!(ml_win_amount("+2147483648"), None);
    let (n, d) = ml_win_amount("-220").unwrap();
    assert_eq!(format!("{:.2}", n as f64 / d as f64), "45.45");
}

#[test]
fn moneylines_that_cannot_be_negated() {
    assert!(!ml_fits("-2147483648"));
    assert!(ml_fits("-2147483647"));
    assert!(ml_fits("x"));
}

#[test]
fn picks_are_from_8_1_to_19_9() {
    assert_eq!(PICK_FROM_BITS, 8.1f64.to_bits());
    assert_eq!(PICK_TO_BITS, 19.9f64.to_bits());
    for v in [
        8.1, 8.0999, 8.1001, 18.58, 19.9, 19.9001, 0.0, -0.0, -8.1, -10.0, -19.9, 100.0, 1e-300,
        f64::NAN, -f64::NAN, f64::INFINITY, f64::NEG_INFINITY,
    ] {
        assert_eq!(is_pick(v.to_bits()), v >= 8.1 && v <= 19.9, "{}", v);
    }
}
