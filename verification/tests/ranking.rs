use site::rank::{performance, round_ln, sort_by_metric, top_bottom};
use site::snapshot::{PersistedSnapshot, SeriesEntry};
use site::types::{CollectionParams, Instrument, Pair, TimeUnit, Timeframe};

fn pair(s: &str) -> Pair {
    Pair::from_str(s).expect("valid pair")
}

fn snapshot_with(metrics: &[(&str, i64)]) -> PersistedSnapshot {
    let entries = metrics
        .iter()
        .map(|(name, m)| SeriesEntry { pair: pair(name), values: vec![0, *m] })
        .collect();
    PersistedSnapshot {
        collected_at_ms: 1_700_000_000_000,
        entries,
        time_index: vec![1_700_000_000_000, 1_700_000_300_000],
        params: CollectionParams::new(
            Timeframe { qty: 5, unit: TimeUnit::Minute },
            288,
            Instrument::Perp,
        ),
    }
}

#[test]
fn rounded_log_matches_known_counts() {
    // round(ln n) at a few exact switch points
    assert_eq!(round_ln(0), 0);
    assert_eq!(round_ln(1), 0);
    assert_eq!(round_ln(2), 1);
    assert_eq!(round_ln(4), 1);
    assert_eq!(round_ln(5), 2);
    assert_eq!(round_ln(12), 2);
    assert_eq!(round_ln(13), 3);
    assert_eq!(round_ln(90), 4);
    assert_eq!(round_ln(91), 5);
    assert_eq!(round_ln(500), 6);
    assert_eq!(round_ln(1_000_000), 14);
}

#[test]
fn sort_is_ascending_and_keeps_contents() {
    let s = snapshot_with(&[("A-USDT", 5), ("B-USDT", -3), ("C-USDT", 9), ("D-USDT", 0)]);
    let perf = performance(&s);
    let sorted = sort_by_metric(perf);
    let ms: Vec<i64> = sorted.iter().map(|e| e.1).collect();
    assert_eq!(ms, vec![-3, 0, 5, 9]);
    let names: Vec<String> = sorted.iter().map(|e| e.0.render()).collect();
    assert_eq!(names, vec!["B-USDT", "D-USDT", "A-USDT", "C-USDT"]);
}

#[test]
fn performance_is_net_change_over_window() {
    let s = snapshot_with(&[("A-USDT", 7)]);
    let perf = performance(&s);
    assert_eq!(perf.len(), 1);
    assert_eq!(perf[0].1, 7);
}

#[test]
fn samples_scale_logarithmically_and_do_not_overlap() {
    // a universe of thirteen retained symbols samples three from each end
    let metrics: Vec<(String, i64)> =
        (0..13).map(|i| (format!("P{}-USDT", i), i as i64 * 10)).collect();
    let borrowed: Vec<(&str, i64)> = metrics.iter().map(|(n, m)| (n.as_str(), *m)).collect();
    let s = snapshot_with(&borrowed);
    let sorted = sort_by_metric(performance(&s));
    let (top, bottom) = top_bottom(&sorted);
    assert_eq!(top.len(), 3);
    assert_eq!(bottom.len(), 3);
    // best first from the top, worst first from the bottom
    assert_eq!(top[0].render(), "P12-USDT");
    assert_eq!(bottom[0].render(), "P0-USDT");
    for t in &top {
        for b in &bottom {
            assert_ne!(t.render(), b.render());
        }
    }
}

#[test]
fn small_rankings_cap_the_sample_at_the_population() {
    let s = snapshot_with(&[("A-USDT", 1)]);
    let sorted = sort_by_metric(performance(&s));
    let (top, bottom) = top_bottom(&sorted);
    // round(ln 1) is zero
    assert_eq!(top.len(), 0);
    assert_eq!(bottom.len(), 0);
}
