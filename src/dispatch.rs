use vstd::prelude::*;

use crate::dest::FedDest;
use crate::error::Error;
use crate::text::push_str;

verus! {

/// The `Authorization` header for one signature of a request:
/// `X-Matrix origin=<origin>,key="<key id>",sig="<signature>"`.
pub open spec fn x_matrix_text(origin: Seq<char>, key_id: Seq<char>, sig: Seq<char>) -> Seq<char> {
    "X-Matrix origin="@ + origin + ",key=\""@ + key_id + "\",sig=\""@ + sig + "\""@
}

/// The check every outbound request and every endpoint makes first:
/// federation must be enabled.
pub fn check_federation_enabled(allow_federation: bool) -> (r: Result<(), Error>)
    ensures
        r is Ok <==> allow_federation,
        r matches Err(e) ==> e is BadConfig,
{
    if allow_federation {
        Ok(())
    } else {
        Err(Error::federation_disabled())
    }
}

/// Builds the `Authorization` header for one signature of an outbound request.
pub fn x_matrix_authorization(origin: &str, key_id: &str, sig: &str) -> (r: String)
    ensures
        r@ == x_matrix_text(origin@, key_id@, sig@),
{
    let mut r = String::new();
    push_str(&mut r, "X-Matrix origin=");
    push_str(&mut r, origin);
    push_str(&mut r, ",key=\"");
    push_str(&mut r, key_id);
    push_str(&mut r, "\",sig=\"");
    push_str(&mut r, sig);
    push_str(&mut r, "\"");
    proof {
        assert(r@ =~= x_matrix_text(origin@, key_id@, sig@));
    }
    r
}

fn copy_dest(d: &FedDest) -> (r: FedDest)
    ensures
        r == *d,
{
    match d {
        FedDest::Literal(addr) => FedDest::Literal(*addr),
        FedDest::Named(host, port) => FedDest::Named(host.clone(), port.clone()),
    }
}

/// One cached resolution: the server name, where to connect, the Host header.
pub struct CachedDestination {
    pub server_name: String,
    pub destination: FedDest,
    pub host: FedDest,
}

/// Resolved destinations by server name, written only once a request to the
/// resolved destination succeeded; one entry per server.
pub struct DestinationCache {
    entries: Vec<CachedDestination>,
}

/// The entry for `server` in `entries`: the latest one written.
pub open spec fn cache_lookup(entries: Seq<CachedDestination>, server: Seq<char>) -> Option<(FedDest, FedDest)>
    decreases entries.len(),
{
    if entries.len() == 0 {
        None
    } else if entries.last().server_name@ == server {
        Some((entries.last().destination, entries.last().host))
    } else {
        cache_lookup(entries.drop_last(), server)
    }
}

impl DestinationCache {
    /// The destination and Host header cached for `server`.
    pub closed spec fn entry(&self, server: Seq<char>) -> Option<(FedDest, FedDest)> {
        cache_lookup(self.entries@, server)
    }

    /// An empty cache.
    pub fn new() -> (c: DestinationCache)
        ensures
            forall|s: Seq<char>| c.entry(s) is None,
    {
        DestinationCache { entries: Vec::new() }
    }

    /// The cached destination and Host header of `server`.
    pub fn get(&self, server: &str) -> (r: Option<(FedDest, FedDest)>)
        ensures
            r == self.entry(server@),
    {
        let mut i: usize = self.entries.len();
        proof {
            assert(self.entries@.subrange(0, i as int) =~= self.entries@);
        }
        let mut name = String::new();
        push_str(&mut name, server);
        while i > 0
            invariant
                0 <= i <= self.entries@.len(),
                name@ == server@,
                cache_lookup(self.entries@, server@) == cache_lookup(
                    self.entries@.subrange(0, i as int),
                    server@,
                ),
            decreases i,
        {
            proof {
                assert(self.entries@.subrange(0, i as int).drop_last() =~= self.entries@.subrange(
                    0,
                    i - 1,
                ));
            }
            if self.entries[i - 1].server_name == name {
                return Some(
                    (copy_dest(&self.entries[i - 1].destination), copy_dest(&self.entries[i - 1].host)),
                );
            }
            i -= 1;
        }
        None
    }

    /// Caches the resolution of `server`.
    pub fn insert(&mut self, server: &str, destination: FedDest, host: FedDest)
        ensures
            final(self).entry(server@) == Some((destination, host)),
            forall|s: Seq<char>| s != server@ ==> #[trigger] final(self).entry(s) == old(self).entry(s),
    {
        let mut name = String::new();
        push_str(&mut name, server);
        let entry = CachedDestination { server_name: name, destination, host };
        let mut i: usize = self.entries.len();
        while i > 0 && self.entries[i - 1].server_name != entry.server_name
            invariant
                0 <= i <= self.entries@.len(),
                self.entries@ == old(self).entries@,
                entry.server_name@ == server@,
                forall|m: int| i <= m < self.entries@.len() ==> (#[trigger] self.entries@[m]).server_name@ != server@,
            decreases i,
        {
            i -= 1;
        }
        if i > 0 {
            let ghost before = self.entries@;
            self.entries.set(i - 1, entry);
            proof {
                lemma_cache_update(before, i - 1, entry, server@);
            }
        } else {
            self.entries.push(entry);
            proof {
                assert(self.entries@.drop_last() =~= old(self).entries@);
                assert forall|s: Seq<char>| s != server@ implies #[trigger] cache_lookup(self.entries@, s)
                    == cache_lookup(old(self).entries@, s) by {
                }
            }
        }
    }
}

/// Replacing the last entry for `server` changes what is cached for it alone.
proof fn lemma_cache_update(entries: Seq<CachedDestination>, j: int, e: CachedDestination, server: Seq<char>)
    requires
        0 <= j < entries.len(),
        entries[j].server_name@ == server,
        e.server_name@ == server,
        forall|m: int| j < m < entries.len() ==> (#[trigger] entries[m]).server_name@ != server,
    ensures
        cache_lookup(entries.update(j, e), server) == Some((e.destination, e.host)),
        forall|k: Seq<char>|
            k != server ==> #[trigger] cache_lookup(entries.update(j, e), k) == cache_lookup(entries, k),
    decreases entries.len(),
{
    let u = entries.update(j, e);
    if j == entries.len() - 1 {
        assert(u.drop_last() =~= entries.drop_last());
        assert(u.last() == e);
        assert forall|k: Seq<char>| k != server implies #[trigger] cache_lookup(u, k) == cache_lookup(entries, k) by {
            assert(cache_lookup(u, k) == cache_lookup(u.drop_last(), k));
            assert(cache_lookup(entries, k) == cache_lookup(entries.drop_last(), k));
        }
    } else {
        let last = entries.len() - 1;
        assert(u.last() == entries.last());
        assert(u.drop_last() =~= entries.drop_last().update(j, e));
        assert forall|m: int| j < m < entries.drop_last().len() implies (#[trigger] entries.drop_last()[m]).server_name@
            != server by {
            assert(entries.drop_last()[m] == entries[m]);
        }
        assert(entries[last].server_name@ != server);
        lemma_cache_update(entries.drop_last(), j, e, server);
        assert forall|k: Seq<char>| k != server implies #[trigger] cache_lookup(u, k) == cache_lookup(entries, k) by {
            if entries.last().server_name@ != k {
                assert(cache_lookup(u, k) == cache_lookup(u.drop_last(), k));
                assert(cache_lookup(entries, k) == cache_lookup(entries.drop_last(), k));
                assert(cache_lookup(entries.drop_last().update(j, e), k) == cache_lookup(entries.drop_last(), k));
            }
        }
    }
}

/// How a peer's answer to a request is taken: a 200 whose body decodes is a
/// success; a 200 that does not decode is a bad response; another status is
/// the peer's error when its body decodes as one (`error_text`), else a bad
/// response.
pub fn response_outcome(destination: &str, status: u16, decoded: bool, error_text: Option<String>) -> (r:
    Result<(), Error>)
    ensures
        status == 200 && decoded ==> r is Ok,
        status == 200 && !decoded ==> (r matches Err(e) && e is BadServerResponse),
        status != 200 ==> match error_text {
            Some(t) => r matches Err(Error::FederationError(d, m)) && d@ == destination@ && m@ == t@,
            None => r matches Err(e) && e is BadServerResponse,
        },
{
    if status == 200 {
        if decoded {
            Ok(())
        } else {
            Err(Error::BadServerResponse("Server returned bad 200 response.".to_owned()))
        }
    } else {
        match error_text {
            Some(t) => {
                let mut d = String::new();
                push_str(&mut d, destination);
                Err(Error::FederationError(d, t))
            },
            None => Err(Error::BadServerResponse("Server returned bad error response.".to_owned())),
        }
    }
}

/// After a request to `server` completed: a destination that was freshly
/// resolved for it (`fresh`) is cached when the answer was a success, and
/// only then.
pub fn commit_destination(
    cache: &mut DestinationCache,
    server: &str,
    fresh: Option<(FedDest, FedDest)>,
    outcome: &Result<(), Error>,
)
    ensures
        fresh is Some && outcome is Ok ==> final(cache).entry(server@) == fresh,
        forall|s: Seq<char>|
            s != server@ || fresh is None || outcome is Err ==> #[trigger] final(cache).entry(s)
                == old(cache).entry(s),
{
    match (fresh, outcome) {
        (Some((d, h)), Ok(())) => cache.insert(server, d, h),
        _ => {},
    }
}

} // verus!
