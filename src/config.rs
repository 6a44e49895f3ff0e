use vstd::prelude::*;

verus! {

/// Paths of the certificate chain and private key used to serve TLS.
pub struct TlsConfig {
    pub certs: String,
    pub key: String,
}

/// Default for boolean settings that are off unless enabled.
pub fn false_fn() -> (r: bool)
    ensures
        r == false,
{
    false
}

/// Default for boolean settings that are on unless disabled.
pub fn true_fn() -> (r: bool)
    ensures
        r == true,
{
    true
}

/// Default port the server listens on.
pub fn default_port() -> (r: u16)
    ensures
        r == 8000,
{
    8000
}

/// Default permissions (as written in octal-looking decimal) of the unix socket.
pub fn default_unix_socket_perms() -> (r: u32)
    ensures
        r == 660,
{
    660
}

/// Default database backend.
pub fn default_database_backend() -> (r: String)
    ensures
        r@ == "sqlite"@,
{
    proof {
        reveal_strlit("sqlite");
    }
    "sqlite".to_owned()
}

/// Default limit on open files of the RocksDB backend.
pub fn default_rocksdb_max_open_files() -> (r: i32)
    ensures
        r == 1000,
{
    1000
}

/// Default number of PDUs kept in memory.
pub fn default_pdu_cache_capacity() -> (r: u32)
    ensures
        r == 150_000,
{
    150_000
}

/// Default interval between cleanup runs, in seconds.
pub fn default_cleanup_second_interval() -> (r: u32)
    ensures
        r == 60,
{
    60
}

/// Default maximum request body size: 20 MiB.
pub fn default_max_request_size() -> (r: u32)
    ensures
        r == 20 * 1024 * 1024,
{
    20 * 1024 * 1024
}

/// Default limit on requests served at once.
pub fn default_max_concurrent_requests() -> (r: u16)
    ensures
        r == 100,
{
    100
}

/// Default limit on previous events fetched for one incoming event.
pub fn default_max_fetch_prev_events() -> (r: u16)
    ensures
        r == 100,
{
    100
}

/// Default log filter.
pub fn default_log() -> (r: String)
    ensures
        r@ == "warn,state_res=warn,_=off,sled=off"@,
{
    proof {
        reveal_strlit("warn,state_res=warn,_=off,sled=off");
    }
    "warn,state_res=warn,_=off,sled=off".to_owned()
}

/// Default lifetime of TURN credentials: one day, in seconds.
pub fn default_turn_ttl() -> (r: u64)
    ensures
        r == 60 * 60 * 24,
{
    60 * 60 * 24
}

/// Default time without activity after which a user shows as idle, in seconds.
pub fn default_presence_idle_timeout_s() -> (r: u64)
    ensures
        r == 5 * 60,
{
    5 * 60
}

/// Default time without activity after which a user shows as offline, in seconds.
pub fn default_presence_offline_timeout_s() -> (r: u64)
    ensures
        r == 15 * 60,
{
    15 * 60
}

/// Default version of newly created rooms.
pub fn default_default_room_version() -> (r: String)
    ensures
        r@ == "10"@,
{
    proof {
        reveal_strlit("10");
    }
    "10".to_owned()
}

/// Configuration keys that are no longer used.
pub open spec fn is_deprecated_key(key: Seq<char>) -> bool {
    key == "cache_capacity"@
}

/// The keys among `keys` (the configuration keys nothing else reads) that
/// are deprecated, in order.
pub fn deprecated_keys(keys: &Vec<String>) -> (r: Vec<String>)
    ensures
        crate::keys::ids_view(r@) == crate::keys::ids_view(keys@).filter(|k: Seq<char>| is_deprecated_key(k)),
{
    let mut r: Vec<String> = Vec::new();
    let deprecated = "cache_capacity".to_owned();
    proof {
        reveal_strlit("cache_capacity");
    }
    let mut i: usize = 0;
    while i < keys.len()
        invariant
            0 <= i <= keys@.len(),
            deprecated@ == "cache_capacity"@,
            crate::keys::ids_view(r@) == crate::keys::ids_view(keys@.subrange(0, i as int)).filter(
                |k: Seq<char>| is_deprecated_key(k),
            ),
        decreases keys@.len() - i,
    {
        let ghost pre = keys@.subrange(0, i as int);
        if keys[i] == deprecated {
            r.push(keys[i].clone());
        }
        proof {
            assert(crate::keys::ids_view(keys@.subrange(0, i + 1)) =~= crate::keys::ids_view(pre).push(keys@[i as int]@));
            crate::keys::ids_view(pre).lemma_filter_push(keys@[i as int]@, |k: Seq<char>| is_deprecated_key(k));
            assert(crate::keys::ids_view(r@) =~= crate::keys::ids_view(keys@.subrange(0, i + 1)).filter(
                |k: Seq<char>| is_deprecated_key(k),
            ));
        }
        i += 1;
    }
    proof {
        assert(keys@.subrange(0, keys@.len() as int) =~= keys@);
    }
    r
}

} // verus!
