use conduit::auth_chain::{get_auth_chain, get_auth_chain_inner, AuthChainCache, AuthEvent, EventStore};
use conduit::error::{Error, ErrorKind};
use std::collections::HashMap;

fn event(room: &str, auth: &[u64]) -> AuthEvent {
    AuthEvent { room_id: String::from(room), auth_events: auth.to_vec() }
}

/// 1 <- 2 <- 3, 1 <- 4, 5 authorized by 3 and 4, 60 by 10 (10 is not stored).
fn store() -> EventStore {
    let mut events = HashMap::new();
    events.insert(1, event("!r:x", &[]));
    events.insert(2, event("!r:x", &[1]));
    events.insert(3, event("!r:x", &[2]));
    events.insert(4, event("!r:x", &[1]));
    events.insert(5, event("!r:x", &[3, 4]));
    events.insert(60, event("!r:x", &[10, 5]));
    EventStore { events }
}

fn sorted(mut v: Vec<u64>) -> Vec<u64> {
    v.sort();
    v
}

#[test]
fn walk_follows_auth_events() {
    let s = store();
    let room = String::from("!r:x");
    assert_eq!(sorted(get_auth_chain_inner(&s, &room, 5).unwrap()), vec![1, 2, 3, 4]);
    assert_eq!(sorted(get_auth_chain_inner(&s, &room, 1).unwrap()), Vec::<u64>::new());
    assert_eq!(sorted(get_auth_chain_inner(&s, &room, 60).unwrap()), vec![1, 2, 3, 4, 5, 10]);
    assert_eq!(sorted(get_auth_chain_inner(&s, &room, 99).unwrap()), Vec::<u64>::new());
}

#[test]
fn walk_refuses_event_of_other_room() {
    let mut s = store();
    s.events.insert(2, event("!evil:x", &[1]));
    let room = String::from("!r:x");
    match get_auth_chain_inner(&s, &room, 5) {
        Err(Error::BadRequest(ErrorKind::Forbidden, _)) => {}
        other => panic!("unexpected {:?}", other),
    }
    assert_eq!(sorted(get_auth_chain_inner(&s, &room, 4).unwrap()), vec![1]);
}

#[test]
fn chain_is_same_with_cold_and_warm_cache() {
    let s = store();
    let room = String::from("!r:x");
    let mut cache = AuthChainCache::new();
    let cold = sorted(get_auth_chain(&s, &mut cache, &room, &vec![5, 60]).unwrap());
    let warm = sorted(get_auth_chain(&s, &mut cache, &room, &vec![5, 60]).unwrap());
    let reordered = sorted(get_auth_chain(&s, &mut cache, &room, &vec![60, 5, 60]).unwrap());
    assert_eq!(cold, vec![1, 2, 3, 4, 5, 10]);
    assert_eq!(warm, cold);
    assert_eq!(reordered, cold);
}

#[test]
fn buckets_join_to_whole_chain() {
    let s = store();
    let room = String::from("!r:x");
    let mut cache = AuthChainCache::new();
    let a = sorted(get_auth_chain(&s, &mut cache, &room, &vec![3]).unwrap());
    let b = sorted(get_auth_chain(&s, &mut cache, &room, &vec![4]).unwrap());
    let mut joined = a.clone();
    for x in b {
        if !joined.contains(&x) {
            joined.push(x);
        }
    }
    let whole = sorted(get_auth_chain(&s, &mut AuthChainCache::new(), &room, &vec![3, 4]).unwrap());
    assert_eq!(sorted(joined), whole);
    assert_eq!(whole, vec![1, 2]);
}

#[test]
fn chain_of_nothing_is_empty() {
    let s = store();
    let room = String::from("!r:x");
    let mut cache = AuthChainCache::new();
    assert_eq!(get_auth_chain(&s, &mut cache, &room, &vec![]).unwrap(), Vec::<u64>::new());
}

#[test]
fn chain_reports_foreign_event() {
    let mut s = store();
    s.events.insert(1, event("!other:x", &[]));
    let room = String::from("!r:x");
    let mut cache = AuthChainCache::new();
    assert!(matches!(
        get_auth_chain(&s, &mut cache, &room, &vec![2]),
        Err(Error::BadRequest(ErrorKind::Forbidden, _))
    ));
}

#[test]
fn cached_chain_is_not_reused_for_another_room() {
    let mut s = store();
    s.events.insert(7, event("!other:x", &[]));
    let mut cache = AuthChainCache::new();
    let room = String::from("!r:x");
    assert_eq!(sorted(get_auth_chain(&s, &mut cache, &room, &vec![5]).unwrap()), vec![1, 2, 3, 4]);
    let other = String::from("!other:x");
    match get_auth_chain(&s, &mut cache, &other, &vec![5]) {
        Err(Error::BadRequest(ErrorKind::Forbidden, m)) => assert_eq!(m, "Evil event in db"),
        r => panic!("unexpected {:?}", r),
    }
    assert_eq!(get_auth_chain(&s, &mut cache, &other, &vec![7]).unwrap(), Vec::<u64>::new());
}
