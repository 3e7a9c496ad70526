use parkvol::candle::Candle;
use parkvol::fixed::Q_ONE;
use parkvol::rolling::rolling_volatility;
use parkvol::vol::estimate_volatility;

fn candle(start_ms: u64, high_e8: u64, low_e8: u64) -> Candle {
    Candle {
        start_ms,
        open_e8: low_e8,
        high_e8,
        low_e8,
        close_e8: high_e8,
        volume: String::new(),
        turnover: String::new(),
    }
}

const E8: u64 = 100_000_000;

fn as_float(vol_q32: u64) -> f64 {
    vol_q32 as f64 / Q_ONE as f64
}

fn parkinson_f64(pairs: &[(f64, f64)]) -> f64 {
    let s: f64 = pairs.iter().map(|(h, l)| (h.ln() - l.ln()).powi(2)).sum();
    (s / (4.0 * pairs.len() as f64 * 2.0f64.ln())).sqrt() * 365.25f64.sqrt()
}

#[test]
fn two_candle_scenario_matches_formula() {
    // high/low 110/100 then 121/110: S = 2 * (ln 1.1)^2.
    let w = vec![candle(1, 110 * E8, 100 * E8), candle(2, 121 * E8, 110 * E8)];
    let v = estimate_volatility(&w);
    let expected = parkinson_f64(&[(110.0, 100.0), (121.0, 110.0)]);
    assert!((as_float(v) - expected).abs() < 1e-3);
    // The computation is exact integer arithmetic, so the result is this
    // Q32.32 value on every run.
    assert_eq!(v, 4_698_416_570);
}

#[test]
fn single_candle_matches_formula() {
    let w = vec![candle(7, 30_000 * E8, 29_000 * E8)];
    let v = estimate_volatility(&w);
    let expected = parkinson_f64(&[(30_000.0, 29_000.0)]);
    assert!((as_float(v) - expected).abs() < 1e-3);
}

#[test]
fn flat_window_is_exactly_zero() {
    let w = vec![
        candle(1, 250 * E8, 250 * E8),
        candle(2, 97 * E8, 97 * E8),
        candle(3, 12_345, 12_345),
    ];
    assert_eq!(estimate_volatility(&w), 0);
}

#[test]
fn estimate_is_order_invariant() {
    let a = candle(1, 110 * E8, 100 * E8);
    let b = candle(2, 121 * E8, 110 * E8);
    let c = candle(3, 99 * E8, 88 * E8);
    let w1 = vec![a.clone(), b.clone(), c.clone()];
    let w2 = vec![c, a, b];
    assert_eq!(estimate_volatility(&w1), estimate_volatility(&w2));
}

#[test]
fn estimate_is_scale_invariant() {
    let w = vec![candle(1, 110 * E8, 100 * E8), candle(2, 121 * E8, 110 * E8)];
    let scaled: Vec<Candle> = w
        .iter()
        .map(|c| Candle {
            start_ms: c.start_ms,
            open_e8: 3 * c.open_e8,
            high_e8: 3 * c.high_e8,
            low_e8: 3 * c.low_e8,
            close_e8: 3 * c.close_e8,
            volume: c.volume.clone(),
            turnover: c.turnover.clone(),
        })
        .collect();
    assert_eq!(estimate_volatility(&w), estimate_volatility(&scaled));
}

#[test]
fn rolling_too_few_candles_is_empty() {
    let candles = vec![candle(1, 2 * E8, E8), candle(2, 2 * E8, E8)];
    let out = rolling_volatility(&candles, 3);
    assert!(out.is_empty());
}

#[test]
fn rolling_point_count_is_len_minus_window_plus_one() {
    let candles: Vec<Candle> = (0..10).map(|i| candle(i, (i + 2) * E8, (i + 1) * E8)).collect();
    assert_eq!(rolling_volatility(&candles, 3).len(), 8);
    assert_eq!(rolling_volatility(&candles, 10).len(), 1);
    assert_eq!(rolling_volatility(&candles, 1).len(), 10);
}

#[test]
fn rolling_uses_last_candle_timestamp() {
    let candles: Vec<Candle> =
        (0..5).map(|i| candle(100 + i, (i + 2) * E8, (i + 1) * E8)).collect();
    let out = rolling_volatility(&candles, 3);
    assert_eq!(out.len(), 3);
    assert_eq!(out[0].start_ms, 102);
    assert_eq!(out[1].start_ms, 103);
    assert_eq!(out[2].start_ms, 104);
}

#[test]
fn rolling_values_match_direct_estimates() {
    let candles: Vec<Candle> =
        (0..6).map(|i| candle(i, (2 * i + 3) * E8, (i + 1) * E8)).collect();
    let out = rolling_volatility(&candles, 4);
    assert_eq!(out.len(), 3);
    for (k, point) in out.iter().enumerate() {
        let direct = estimate_volatility(&candles[k..k + 4]);
        assert_eq!(point.vol_q32, direct);
    }
}
