use site::lsr::{collect_lsrs, Lsrs, LsrOutcome, RenderedLsrs, SortedLsrs};
use site::report::legend_row;
use site::types::Pair;

fn pair(s: &str) -> Pair {
    Pair::from_str(s).expect("valid pair")
}

fn lsrs(name: &str, values: &[i64]) -> Lsrs {
    Lsrs { pair: pair(name), values: values.to_vec() }
}

fn two_sorted() -> SortedLsrs {
    let mut s = SortedLsrs::build(vec![
        lsrs("A-USDT", &[50_000_000, 57_000_000]),
        lsrs("B-USDT", &[60_000_000, 40_000_000]),
    ]);
    s.set_total_pairs(5);
    s
}

#[test]
fn build_sorts_ascending_by_latest_share() {
    let s = two_sorted();
    assert_eq!(s.len(), 2);
    assert_eq!(s.get(0).pair.render(), "B-USDT");
    assert_eq!(s.get(1).pair.render(), "A-USDT");
}

#[test]
fn outlier_report_is_column_aligned() {
    let s = two_sorted();
    let report = s.display_outliers(10);
    let expected = "Most Shorted (% longs)    Most Longed (% longs)     \nB-USDT        -  40.00%   A-USDT        +  57.00%   \n--------------------------\nAverage: 0.49\nCollected for 2/5 pairs on Binance/Perp";
    assert_eq!(report, expected);
}

#[test]
fn zero_row_report_has_no_header() {
    // a single retained series yields no outlier rows, so no column titles
    let mut s = SortedLsrs::build(vec![lsrs("A-USDT", &[50_000_000])]);
    s.set_total_pairs(3);
    let report = s.display_outliers(10);
    let expected = "\n--------------------------\nAverage: 0.50\nCollected for 1/3 pairs on Binance/Perp";
    assert_eq!(report, expected);
}

#[test]
fn row_needs_two_series_per_depth() {
    let s = two_sorted();
    assert!(s.display_most_shorted_longed_row(0).is_ok());
    assert!(s.display_most_shorted_longed_row(1).is_err());
}

#[test]
fn short_rendering_shows_latest_percentage() {
    let l = lsrs("A-USDT", &[50_000_000, 57_000_000]);
    assert_eq!(l.display_short(), "A-USDT: 57.00%");
}

#[test]
fn rendered_panel_keeps_rank_order() {
    let s = two_sorted();
    let r = RenderedLsrs::from_sorted(&s, 10);
    assert_eq!(r.v.len(), 2);
    assert_eq!(r.v[0].rend, "B-USDT: 40.00%");
    assert_eq!(r.v[1].rend, "A-USDT: 57.00%");
    assert!(r.outliers.starts_with("Most Shorted (% longs)"));
}

#[test]
fn ratio_collection_records_misses_and_keeps_data() {
    let outcomes = vec![
        (pair("A-USDT"), LsrOutcome::Values(vec![50_000_000])),
        (pair("B-USDT"), LsrOutcome::Empty),
        (pair("C-USDT"), LsrOutcome::Values(vec![])),
        (pair("D-USDT"), LsrOutcome::Failed),
    ];
    let (kept, misses) = collect_lsrs(outcomes);
    assert_eq!(kept.len(), 1);
    assert_eq!(kept[0].pair.render(), "A-USDT");
    let missed: Vec<String> = misses.iter().map(|p| p.render()).collect();
    assert_eq!(missed, vec!["B-USDT".to_string(), "C-USDT".to_string()]);
}

#[test]
fn legend_rows_elide_thousand_multipliers() {
    assert_eq!(legend_row(&pair("1000PEPE-USDT"), 23_456_789), "PEPE +23.46%");
    assert_eq!(legend_row(&pair("BTC-USDT"), -5_000_000), "BTC  - 5.00%");
}
