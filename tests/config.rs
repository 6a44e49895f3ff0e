use conduit::config::{
    default_cleanup_second_interval, default_database_backend, default_log,
    default_max_concurrent_requests, default_max_fetch_prev_events, default_max_request_size,
    default_pdu_cache_capacity, default_port, default_presence_idle_timeout_s,
    default_presence_offline_timeout_s, default_rocksdb_max_open_files, default_turn_ttl,
    default_unix_socket_perms, default_default_room_version, false_fn, true_fn, TlsConfig,
};

#[test]
fn config_defaults() {
    assert!(!false_fn());
    assert!(true_fn());
    assert_eq!(default_port(), 8000);
    assert_eq!(default_unix_socket_perms(), 660);
    assert_eq!(default_database_backend(), "sqlite");
    assert_eq!(default_rocksdb_max_open_files(), 1000);
    assert_eq!(default_pdu_cache_capacity(), 150_000);
    assert_eq!(default_cleanup_second_interval(), 60);
    assert_eq!(default_max_request_size(), 20 * 1024 * 1024);
    assert_eq!(default_max_concurrent_requests(), 100);
    assert_eq!(default_max_fetch_prev_events(), 100);
    assert_eq!(default_log(), "warn,state_res=warn,_=off,sled=off");
    assert_eq!(default_turn_ttl(), 86400);
    assert_eq!(default_presence_idle_timeout_s(), 300);
    assert_eq!(default_presence_offline_timeout_s(), 900);
    assert_eq!(default_default_room_version(), "10");
    let tls = TlsConfig { certs: String::from("c.pem"), key: String::from("k.pem") };
    assert_eq!(tls.certs, "c.pem");
}

#[test]
fn deprecated_config_keys() {
    let keys = vec![String::from("cache_capacity"), String::from("other"), String::from("cache_capacity")];
    assert_eq!(
        conduit::config::deprecated_keys(&keys),
        vec![String::from("cache_capacity"), String::from("cache_capacity")]
    );
    assert!(conduit::config::deprecated_keys(&vec![String::from("port")]).is_empty());
}
