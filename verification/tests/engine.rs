use site::series::{get_historical_data, normalize_series, Kline, RelevantHistoricalData};
use site::snapshot::{aggregate, BuildError, FetchOutcome};
use site::types::{CollectionParams, Instrument, Pair, TimeUnit, Timeframe};

fn pair(s: &str) -> Pair {
    Pair::from_str(s).expect("valid pair")
}

fn params_5m() -> CollectionParams {
    CollectionParams::new(Timeframe { qty: 5, unit: TimeUnit::Minute }, 288, Instrument::Perp)
}

fn series(start_ms: i64, closes: &[i64]) -> RelevantHistoricalData {
    let mut klines = Vec::new();
    for (i, c) in closes.iter().enumerate() {
        klines.push(Kline {
            open_time_ms: start_ms + (i as i64) * 300_000,
            open: *c,
            high: *c + 1,
            low: *c - 1,
            close: *c,
            volume_quote: 1_000,
        });
    }
    get_historical_data(klines)
}

#[test]
fn normalized_series_starts_at_zero_exactly() {
    let closes = vec![12_345_678_900i64, 13_000_000_000, 11_000_000_000];
    let norm = normalize_series(&closes);
    assert_eq!(norm.len(), closes.len());
    assert_eq!(norm[0], 0);
}

#[test]
fn normalized_series_single_point_is_zero() {
    let norm = normalize_series(&vec![42i64]);
    assert_eq!(norm, vec![0i64]);
}

#[test]
fn scenario_partial_failure_retains_survivors() {
    // universe of three, the anchor and one other succeed with ten bars,
    // the third errors: the build succeeds and retains two of three
    let anchor = pair("BTC-USDT");
    let closes: Vec<i64> = (0..10).map(|i| 100_000_000 + i * 1_000_000).collect();
    let outcomes = vec![
        (pair("BTC-USDT"), FetchOutcome::Data(series(1_700_000_000_000, &closes))),
        (pair("ETH-USDT"), FetchOutcome::Data(series(1_700_000_000_000, &closes))),
        (pair("XYZ-USDT"), FetchOutcome::Failed),
    ];
    let b = aggregate(params_5m(), 3, outcomes, &anchor, 1_700_010_000_000).expect("build");
    assert_eq!(b.successes, 2);
    assert_eq!(b.snapshot.entries.len(), 2);
    assert_eq!(b.snapshot.time_index.len(), 10);
    // two of three is under seventy percent
    assert!(b.low_coverage);
    // every retained series is aligned with the anchor's time index and
    // starts at exactly zero
    for e in &b.snapshot.entries {
        assert_eq!(e.values.len(), b.snapshot.time_index.len());
        assert_eq!(e.values[0], 0);
    }
    assert!(b.soft_misses.is_empty());
    let title = site::report::chart_title(&b.snapshot, 3);
    assert_eq!(
        title,
        "Last 0h of <span style=\"color: #f59e0b;\">2</span>/3 pairs on Perp"
    );
}

#[test]
fn scenario_anchor_failure_is_fatal() {
    let anchor = pair("BTC-USDT");
    let closes: Vec<i64> = (0..10).map(|i| 100_000_000 + i * 1_000_000).collect();
    let outcomes = vec![
        (pair("BTC-USDT"), FetchOutcome::Failed),
        (pair("ETH-USDT"), FetchOutcome::Data(series(1_700_000_000_000, &closes))),
    ];
    let r = aggregate(params_5m(), 2, outcomes, &anchor, 1_700_010_000_000);
    assert!(matches!(r, Err(BuildError::AnchorMissing)));
}

#[test]
fn scenario_anchor_empty_is_fatal() {
    let anchor = pair("BTC-USDT");
    let outcomes = vec![
        (pair("BTC-USDT"), FetchOutcome::Empty),
        (pair("ETH-USDT"), FetchOutcome::Empty),
    ];
    let r = aggregate(params_5m(), 2, outcomes, &anchor, 1_700_010_000_000);
    assert!(matches!(r, Err(BuildError::AnchorMissing)));
}

#[test]
fn misaligned_series_is_dropped_not_fatal() {
    let anchor = pair("BTC-USDT");
    let closes10: Vec<i64> = (0..10).map(|i| 100_000_000 + i * 1_000_000).collect();
    let closes7: Vec<i64> = (0..7).map(|i| 100_000_000 + i * 1_000_000).collect();
    let outcomes = vec![
        (pair("BTC-USDT"), FetchOutcome::Data(series(1_700_000_000_000, &closes10))),
        (pair("SHORT-USDT"), FetchOutcome::Data(series(1_700_000_000_000, &closes7))),
    ];
    let b = aggregate(params_5m(), 2, outcomes, &anchor, 1_700_010_000_000).expect("build");
    // both fetches count as successes, but only the aligned one is retained
    assert_eq!(b.successes, 2);
    assert_eq!(b.snapshot.entries.len(), 1);
    assert!(!b.low_coverage);
}

#[test]
fn empty_fetch_is_recorded_as_soft_miss() {
    let anchor = pair("BTC-USDT");
    let closes: Vec<i64> = (0..4).map(|i| 200_000_000 + i * 1_000_000).collect();
    let outcomes = vec![
        (pair("BTC-USDT"), FetchOutcome::Data(series(1_700_000_000_000, &closes))),
        (pair("NEW-USDT"), FetchOutcome::Empty),
    ];
    let b = aggregate(params_5m(), 2, outcomes, &anchor, 1_700_010_000_000).expect("build");
    assert_eq!(b.soft_misses.len(), 1);
    assert_eq!(b.soft_misses[0].render(), "NEW-USDT");
    assert_eq!(b.successes, 1);
}

#[test]
fn transpose_keeps_column_order() {
    let ks = vec![
        Kline { open_time_ms: 1, open: 2, high: 3, low: 1, close: 2, volume_quote: 9 },
        Kline { open_time_ms: 2, open: 4, high: 6, low: 2, close: 5, volume_quote: 8 },
    ];
    let d = get_historical_data(ks);
    assert_eq!(d.col_open_times, vec![1, 2]);
    assert_eq!(d.col_closes, vec![2, 5]);
    assert_eq!(d.col_volumes, vec![9, 8]);
}
