use conduit::keys::{
    backoff_window_secs, continue_key_fetch, contains_all_ids, fail_key_fetch, start_key_fetch,
    BackoffLedger, KeyFetchStep, ServerKey,
};

fn key(id: &str, k: &str) -> ServerKey {
    ServerKey { key_id: String::from(id), key: String::from(k) }
}

fn ids(v: &[&str]) -> Vec<String> {
    v.iter().map(|s| String::from(*s)).collect()
}

#[test]
fn backoff_grows_and_is_capped() {
    assert_eq!(backoff_window_secs(0), 0);
    assert_eq!(backoff_window_secs(1), 30);
    assert_eq!(backoff_window_secs(2), 120);
    assert_eq!(backoff_window_secs(53), 84270);
    assert_eq!(backoff_window_secs(54), 86400);
    assert_eq!(backoff_window_secs(u32::MAX), 86400);
    let mut last = 0;
    for t in 1..100u32 {
        let w = backoff_window_secs(t);
        assert!(w >= last && w <= 86400);
        if last < 86400 {
            assert!(w > last);
        }
        last = w;
    }
}

#[test]
fn ledger_counts_failures() {
    let mut ledger = BackoffLedger::new();
    let k = ids(&["ed25519:a"]);
    assert_eq!(ledger.get(&k), None);
    ledger.record_failure(&k, 1000);
    assert_eq!(ledger.get(&k), Some((1000, 1)));
    ledger.record_failure(&k, 5000);
    assert_eq!(ledger.get(&k), Some((5000, 2)));
    assert_eq!(ledger.get(&ids(&["ed25519:b"])), None);
    assert!(ledger.is_backing_off(&k, 5000 + 119_999));
    assert!(!ledger.is_backing_off(&k, 5000 + 120_000));
    assert!(ledger.is_backing_off(&k, 10));
}

#[test]
fn fetch_fails_fast_while_backing_off() {
    let mut ledger = BackoffLedger::new();
    let wanted = ids(&["ed25519:a"]);
    let e = fail_key_fetch(&mut ledger, &wanted, 0);
    assert!(matches!(e, conduit::error::Error::BadServerResponse(_)));
    assert_eq!(
        start_key_fetch(&ledger, &wanted, 29_999, vec![]),
        KeyFetchStep::Failed(conduit::error::Error::BadServerResponse(String::from(
            "bad signature, still backing off"
        )))
    );
    assert_eq!(start_key_fetch(&ledger, &wanted, 30_000, vec![]), KeyFetchStep::Continue(vec![]));
    assert_eq!(e, conduit::error::Error::BadServerResponse(String::from("Failed to find public key for server")));
}

#[test]
fn stored_keys_win_over_backoff() {
    let mut ledger = BackoffLedger::new();
    let wanted = ids(&["ed25519:a"]);
    fail_key_fetch(&mut ledger, &wanted, 0);
    assert_eq!(
        start_key_fetch(&ledger, &wanted, 1, vec![key("ed25519:a", "AAA")]),
        KeyFetchStep::Done(vec![key("ed25519:a", "AAA")])
    );
    assert!(conduit::keys::event_backing_off(&ledger, &String::from("$e"), 1) == false);
    let mut events = BackoffLedger::new();
    events.record_failure(&vec![String::from("$e")], 0);
    assert!(conduit::keys::event_backing_off(&events, &String::from("$e"), 1));
}

#[test]
fn fetch_merges_until_satisfied() {
    let ledger = BackoffLedger::new();
    let wanted = ids(&["ed25519:a", "ed25519:b"]);
    let step = start_key_fetch(&ledger, &wanted, 0, vec![key("ed25519:a", "AAA")]);
    assert_eq!(step, KeyFetchStep::Continue(vec![key("ed25519:a", "AAA")]));
    let step = continue_key_fetch(vec![key("ed25519:a", "AAA")], &wanted, None);
    assert_eq!(step, KeyFetchStep::Continue(vec![key("ed25519:a", "AAA")]));
    let step = continue_key_fetch(
        vec![key("ed25519:a", "AAA")],
        &wanted,
        Some(vec![key("ed25519:c", "CCC")]),
    );
    assert_eq!(step, KeyFetchStep::Continue(vec![key("ed25519:a", "AAA"), key("ed25519:c", "CCC")]));
    let step = continue_key_fetch(
        vec![key("ed25519:a", "AAA")],
        &wanted,
        Some(vec![key("ed25519:b", "BBB")]),
    );
    assert_eq!(step, KeyFetchStep::Done(vec![key("ed25519:a", "AAA"), key("ed25519:b", "BBB")]));
    assert!(contains_all_ids(&vec![], &vec![]));
    assert!(!contains_all_ids(&vec![], &wanted));
}

fn sig(server: &str, key_ids: &[&str]) -> conduit::keys::SignatureSet {
    conduit::keys::SignatureSet { server: String::from(server), key_ids: ids(key_ids) }
}

fn stored(server: &str, keys: Vec<ServerKey>) -> conduit::keys::ServerKeys {
    conduit::keys::ServerKeys { server: String::from(server), keys }
}

#[test]
fn join_key_plan_asks_only_for_missing_servers() {
    let sigs = vec![
        sig("a.example", &["ed25519:1"]),
        sig("b.example", &["ed25519:2"]),
        sig("a.example", &["ed25519:9"]),
        sig("c.example", &["ed25519:3"]),
    ];
    let local = vec![
        stored("a.example", vec![key("ed25519:1", "A1")]),
        stored("c.example", vec![key("ed25519:4", "C4")]),
    ];
    let (to_fetch, map) = conduit::keys::plan_join_key_fetch(&sigs, &local, &vec![]);
    assert_eq!(to_fetch, ids(&["b.example", "c.example"]));
    assert_eq!(
        map,
        vec![
            stored("a.example", vec![key("ed25519:1", "A1")]),
            stored("b.example", vec![]),
            stored("c.example", vec![key("ed25519:4", "C4")]),
        ]
    );
}

#[test]
fn batch_answer_replaces_keys_and_ends_fetch() {
    let mut to_fetch = ids(&["b.example", "c.example"]);
    let mut map = vec![stored("a.example", vec![]), stored("b.example", vec![])];
    conduit::keys::take_server_keys(&mut to_fetch, &mut map, stored("b.example", vec![key("ed25519:2", "B2")]));
    assert_eq!(to_fetch, ids(&["c.example"]));
    assert_eq!(map[1], stored("b.example", vec![key("ed25519:2", "B2")]));
    conduit::keys::take_server_keys(&mut to_fetch, &mut map, stored("d.example", vec![key("ed25519:5", "D5")]));
    assert_eq!(to_fetch, ids(&["c.example"]));
    assert_eq!(map.len(), 3);
    assert_eq!(map[2], stored("d.example", vec![key("ed25519:5", "D5")]));
}

#[test]
fn published_key_validity_and_id() {
    assert_eq!(conduit::keys::server_keys_valid_until(1_000), Some(1_000 + 604_800_000));
    assert_eq!(conduit::keys::server_keys_valid_until(u64::MAX - 5), None);
    assert_eq!(conduit::keys::verify_key_id("abc"), "ed25519:abc");
}

#[test]
fn join_key_plan_skips_known_servers() {
    let sigs = vec![sig("a.example", &["ed25519:1"]), sig("b.example", &["ed25519:2"])];
    let known = vec![stored("b.example", vec![key("ed25519:2", "B2")])];
    let (to_fetch, map) = conduit::keys::plan_join_key_fetch(&sigs, &vec![], &known);
    assert_eq!(to_fetch, ids(&["a.example"]));
    assert_eq!(map, vec![stored("a.example", vec![])]);
}

#[test]
fn key_sources_in_order() {
    assert_eq!(conduit::keys::next_key_source(0, 2), Some(conduit::keys::KeySource::Origin));
    assert_eq!(conduit::keys::next_key_source(1, 2), Some(conduit::keys::KeySource::Notary(0)));
    assert_eq!(conduit::keys::next_key_source(2, 2), Some(conduit::keys::KeySource::Notary(1)));
    assert_eq!(conduit::keys::next_key_source(3, 2), None);
}
