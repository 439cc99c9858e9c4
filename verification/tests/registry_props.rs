use site::registry::{NoDataRegistry, REGISTRY_MAX_AGE_MS};
use site::types::Pair;

fn pair(s: &str) -> Pair {
    Pair::from_str(s).expect("valid pair")
}

fn universe() -> Vec<Pair> {
    vec![pair("BTC-USDT"), pair("NEW-USDT"), pair("ETH-USDT"), pair("DEAD-USDT")]
}

#[test]
fn fresh_registry_members_are_never_fetched() {
    let contents = b"NEW-USDT\nDEAD-USDT\n".to_vec();
    let reg = NoDataRegistry::load(Some(&contents), 1_000);
    let candidates = reg.filter(universe());
    let names: Vec<String> = candidates.iter().map(|p| p.render()).collect();
    assert_eq!(names, vec!["BTC-USDT".to_string(), "ETH-USDT".to_string()]);
    for p in &candidates {
        assert!(!reg.contains(p.bytes()));
    }
}

#[test]
fn expired_registry_retries_every_symbol() {
    let contents = b"NEW-USDT\nDEAD-USDT\n".to_vec();
    let reg = NoDataRegistry::load(Some(&contents), REGISTRY_MAX_AGE_MS);
    let candidates = reg.filter(universe());
    assert_eq!(candidates.len(), 4);
}

#[test]
fn age_just_under_the_limit_still_counts() {
    let contents = b"NEW-USDT".to_vec();
    let reg = NoDataRegistry::load(Some(&contents), REGISTRY_MAX_AGE_MS - 1);
    assert!(reg.contains(pair("NEW-USDT").bytes()));
}

#[test]
fn missing_file_means_empty_registry() {
    let reg = NoDataRegistry::load(None, 0);
    assert_eq!(reg.filter(universe()).len(), 4);
}

#[test]
fn empty_lines_are_dropped_when_reading() {
    let contents = b"\n\nNEW-USDT\n\nDEAD-USDT".to_vec();
    let reg = NoDataRegistry::load(Some(&contents), 0);
    assert!(reg.contains(pair("NEW-USDT").bytes()));
    assert!(reg.contains(pair("DEAD-USDT").bytes()));
    assert!(!reg.contains(pair("BTC-USDT").bytes()));
}

#[test]
fn recording_and_persisting_round_trips() {
    let mut reg = NoDataRegistry::load(None, 0);
    reg.record(&pair("AAA-USDT"));
    reg.record_all(&vec![pair("BBB-USDT"), pair("CCC-USDT")]);
    let written = reg.persist();
    assert_eq!(String::from_utf8(written.clone()).unwrap(), "AAA-USDT\nBBB-USDT\nCCC-USDT");
    let back = NoDataRegistry::load(Some(&written), 0);
    assert!(back.contains(pair("AAA-USDT").bytes()));
    assert!(back.contains(pair("BBB-USDT").bytes()));
    assert!(back.contains(pair("CCC-USDT").bytes()));
}
