use site::cache::{cache_filename, encode_snapshot, save, try_load};
use site::snapshot::{PersistedSnapshot, SeriesEntry};
use site::types::{CollectionParams, Instrument, Pair, TimeUnit, Timeframe};

fn pair(s: &str) -> Pair {
    Pair::from_str(s).expect("valid pair")
}

fn params_5m() -> CollectionParams {
    CollectionParams::new(Timeframe { qty: 5, unit: TimeUnit::Minute }, 288, Instrument::Perp)
}

fn snapshot() -> PersistedSnapshot {
    PersistedSnapshot {
        collected_at_ms: 1_700_000_000_000,
        entries: vec![
            SeriesEntry { pair: pair("BTC-USDT"), values: vec![0, 12_345, -678] },
            SeriesEntry { pair: pair("ETH-USDT"), values: vec![0, -1, 2] },
        ],
        time_index: vec![1_700_000_000_000, 1_700_000_300_000, 1_700_000_600_000],
        params: params_5m(),
    }
}

fn snapshots_equal(a: &PersistedSnapshot, b: &PersistedSnapshot) -> bool {
    a.collected_at_ms == b.collected_at_ms && a.time_index == b.time_index
        && a.params == b.params && a.entries.len() == b.entries.len()
        && a.entries.iter().zip(b.entries.iter()).all(|(x, y)| {
            x.pair == y.pair && x.values == y.values
        })
}

#[test]
fn cache_key_is_deterministic_and_sanitized() {
    let name = cache_filename(&params_5m());
    assert_eq!(String::from_utf8(name).unwrap(), "market_structure_perp_5m_288.json");
}

#[test]
fn round_trip_within_ttl_returns_saved_snapshot() {
    let s = snapshot();
    let (_, contents) = save(&s);
    // two minutes after collection, well inside the five-minute window
    let now = s.collected_at_ms + 2 * 60 * 1_000;
    let loaded = try_load(&params_5m(), now, Some(&contents)).expect("cache hit");
    assert!(snapshots_equal(&loaded, &s));
}

#[test]
fn fresh_snapshot_is_served_from_cache() {
    // a cached snapshot written two minutes ago for a five-minute timeframe
    // is a hit, short-circuiting the fetch pipeline
    let s = snapshot();
    let contents = encode_snapshot(&s);
    let now = s.collected_at_ms + 120_000;
    assert!(try_load(&params_5m(), now, Some(&contents)).is_some());
}

#[test]
fn stale_snapshot_is_a_miss_even_if_present() {
    // ten minutes is past the five-minute timeframe's time-to-live
    let s = snapshot();
    let contents = encode_snapshot(&s);
    let now = s.collected_at_ms + 10 * 60 * 1_000;
    assert!(try_load(&params_5m(), now, Some(&contents)).is_none());
}

#[test]
fn age_exactly_at_ttl_is_a_miss() {
    let s = snapshot();
    let contents = encode_snapshot(&s);
    let now = s.collected_at_ms + 5 * 60 * 1_000;
    assert!(try_load(&params_5m(), now, Some(&contents)).is_none());
}

#[test]
fn missing_contents_is_a_miss() {
    assert!(try_load(&params_5m(), 1_700_000_000_000, None).is_none());
}

#[test]
fn unreadable_contents_is_a_miss() {
    let garbage = b"not a snapshot at all".to_vec();
    assert!(try_load(&params_5m(), 1_700_000_000_000, Some(&garbage)).is_none());
}

#[test]
fn mismatched_params_is_a_miss() {
    let s = snapshot();
    let contents = encode_snapshot(&s);
    let other = CollectionParams::new(
        Timeframe { qty: 1, unit: TimeUnit::Hour },
        288,
        Instrument::Perp,
    );
    let now = s.collected_at_ms + 1_000;
    assert!(try_load(&other, now, Some(&contents)).is_none());
}

#[test]
fn tampered_contents_is_a_miss() {
    let s = snapshot();
    let mut contents = encode_snapshot(&s);
    let n = contents.len();
    contents[n - 3] = b'X';
    let now = s.collected_at_ms + 1_000;
    assert!(try_load(&params_5m(), now, Some(&contents)).is_none());
}

#[test]
fn fresh_valid_contents_always_load() {
    // the load is total on what save writes: any fresh byte-faithful
    // encoding for the requested parameters is a hit
    let s = snapshot();
    let contents = encode_snapshot(&s);
    for age_ms in [0i64, 1, 60_000, 299_999] {
        let now = s.collected_at_ms + age_ms;
        assert!(try_load(&params_5m(), now, Some(&contents)).is_some());
    }
}

#[test]
fn encoding_is_readable_json_shape() {
    let s = snapshot();
    let contents = String::from_utf8(encode_snapshot(&s)).unwrap();
    assert!(contents.starts_with("{\"collected_at\":1700000000000,\"params\":\"perp_5m_288\""));
    assert!(contents.contains("\"BTC-USDT\":[0,12345,-678]"));
    assert!(contents.ends_with("}}"));
}
