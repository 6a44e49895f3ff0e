use vstd::prelude::*;

use crate::error::Error;

verus! {

/// Base of the exponential backoff after a failed fetch, in seconds.
pub const BACKOFF_BASE_SECS: u64 = 30;

/// Longest backoff after failed fetches: one day, in seconds.
pub const BACKOFF_CAP_SECS: u64 = 86400;

/// The backoff window after `tries` failures: `30 s × tries²`, capped at a day.
pub open spec fn backoff_window(tries: nat) -> nat {
    let w: nat = (BACKOFF_BASE_SECS as nat) * tries * tries;
    if w > BACKOFF_CAP_SECS as nat {
        BACKOFF_CAP_SECS as nat
    } else {
        w
    }
}

/// The backoff window after `tries` failures, in seconds.
pub fn backoff_window_secs(tries: u32) -> (r: u64)
    ensures
        r == backoff_window(tries as nat),
{
    if tries >= 54 {
        assert(BACKOFF_BASE_SECS * tries * tries >= 30 * 54 * 54) by (nonlinear_arith)
            requires
                tries >= 54,
        ;
        BACKOFF_CAP_SECS
    } else {
        assert(BACKOFF_BASE_SECS * tries * tries < 30 * 54 * 54) by (nonlinear_arith)
            requires
                tries < 54,
        ;
        let w = BACKOFF_BASE_SECS * (tries as u64) * (tries as u64);
        if w > BACKOFF_CAP_SECS {
            BACKOFF_CAP_SECS
        } else {
            w
        }
    }
}

/// The backoff window never shrinks as failures add up, never exceeds a day,
/// and grows with each failure until it reaches that cap.
pub proof fn lemma_backoff_monotone_capped(t1: nat, t2: nat)
    requires
        t1 <= t2,
    ensures
        backoff_window(t1) <= backoff_window(t2),
        backoff_window(t2) <= BACKOFF_CAP_SECS,
        t1 < t2 && backoff_window(t1) < BACKOFF_CAP_SECS ==> backoff_window(t1) < backoff_window(
            t2,
        ),
{
    assert((BACKOFF_BASE_SECS as nat) * t1 * t1 <= (BACKOFF_BASE_SECS as nat) * t2 * t2)
        by (nonlinear_arith)
        requires
            t1 <= t2,
    ;
    assert(t1 < t2 ==> (BACKOFF_BASE_SECS as nat) * t1 * t1 < (BACKOFF_BASE_SECS as nat) * t2 * t2)
        by (nonlinear_arith)
        requires
            t1 <= t2,
    ;
}

/// Time elapsed from `then` to `now`, in milliseconds; none when `now` is earlier.
pub open spec fn elapsed_ms(now: u64, then: u64) -> nat {
    if now >= then {
        (now - then) as nat
    } else {
        0
    }
}

/// A list of ids read as a sequence of texts.
pub open spec fn ids_view(ids: Seq<String>) -> Seq<Seq<char>> {
    ids.map_values(|s: String| s@)
}

/// One entry of a backoff ledger: the key, the time of the last failure in
/// milliseconds, and the number of failures.
pub struct BackoffEntry {
    pub key: Vec<String>,
    pub last_failure_ms: u64,
    pub tries: u32,
}

/// Failures per key (a set of signature ids, or an event id), used to back
/// off before trying the same thing again. Entries are never dropped.
pub struct BackoffLedger {
    entries: Vec<BackoffEntry>,
}

/// The last failure time and the failure count recorded for `key`, if any.
pub open spec fn ledger_lookup(entries: Seq<BackoffEntry>, key: Seq<Seq<char>>) -> Option<(u64, u32)>
    decreases entries.len(),
{
    if entries.len() == 0 {
        None
    } else if ids_view(entries.last().key@) == key {
        Some((entries.last().last_failure_ms, entries.last().tries))
    } else {
        ledger_lookup(entries.drop_last(), key)
    }
}

/// Whether a fetch for `key` must still wait at time `now_ms`.
pub open spec fn backing_off(record: Option<(u64, u32)>, now_ms: u64) -> bool {
    match record {
        None => false,
        Some((t, n)) => elapsed_ms(now_ms, t) < backoff_window(n as nat) * 1000,
    }
}

fn same_ids(a: &Vec<String>, b: &Vec<String>) -> (r: bool)
    ensures
        r == (ids_view(a@) == ids_view(b@)),
{
    if a.len() != b.len() {
        proof {
            assert(ids_view(a@).len() != ids_view(b@).len());
        }
        return false;
    }
    let mut i: usize = 0;
    while i < a.len()
        invariant
            a@.len() == b@.len(),
            0 <= i <= a@.len(),
            forall|j: int| 0 <= j < i ==> a@[j]@ == b@[j]@,
        decreases a@.len() - i,
    {
        if a[i] != b[i] {
            proof {
                assert(ids_view(a@)[i as int] != ids_view(b@)[i as int]);
            }
            return false;
        }
        i += 1;
    }
    proof {
        assert(ids_view(a@) =~= ids_view(b@));
    }
    true
}

fn clone_ids(a: &Vec<String>) -> (r: Vec<String>)
    ensures
        ids_view(r@) == ids_view(a@),
{
    let mut r: Vec<String> = Vec::new();
    let mut i: usize = 0;
    while i < a.len()
        invariant
            0 <= i <= a@.len(),
            r@.len() == i,
            forall|j: int| 0 <= j < i ==> r@[j]@ == a@[j]@,
        decreases a@.len() - i,
    {
        r.push(a[i].clone());
        i += 1;
    }
    proof {
        assert(ids_view(r@) =~= ids_view(a@));
    }
    r
}

/// Replacing the last entry for `key` changes what is recorded for `key`
/// alone.
proof fn lemma_lookup_update(entries: Seq<BackoffEntry>, j: int, e: BackoffEntry, key: Seq<Seq<char>>)
    requires
        0 <= j < entries.len(),
        ids_view(entries[j].key@) == key,
        ids_view(e.key@) == key,
        forall|m: int| j < m < entries.len() ==> ids_view(#[trigger] entries[m].key@) != key,
    ensures
        ledger_lookup(entries.update(j, e), key) == Some((e.last_failure_ms, e.tries)),
        forall|k: Seq<Seq<char>>|
            k != key ==> #[trigger] ledger_lookup(entries.update(j, e), k) == ledger_lookup(entries, k),
    decreases entries.len(),
{
    let u = entries.update(j, e);
    if j == entries.len() - 1 {
        assert(u.drop_last() =~= entries.drop_last());
        assert(u.last() == e);
        assert forall|k: Seq<Seq<char>>| k != key implies #[trigger] ledger_lookup(u, k) == ledger_lookup(entries, k) by {
            assert(ledger_lookup(u, k) == ledger_lookup(u.drop_last(), k));
            assert(ledger_lookup(entries, k) == ledger_lookup(entries.drop_last(), k));
        }
    } else {
        let last = entries.len() - 1;
        assert(u.last() == entries.last());
        assert(u.drop_last() =~= entries.drop_last().update(j, e));
        assert forall|m: int| j < m < entries.drop_last().len() implies ids_view(
            #[trigger] entries.drop_last()[m].key@,
        ) != key by {
            assert(entries.drop_last()[m] == entries[m]);
        }
        assert(ids_view(entries[last].key@) != key);
        lemma_lookup_update(entries.drop_last(), j, e, key);
        assert forall|k: Seq<Seq<char>>| k != key implies #[trigger] ledger_lookup(u, k) == ledger_lookup(entries, k) by {
            if ids_view(entries.last().key@) != k {
                assert(ledger_lookup(u, k) == ledger_lookup(u.drop_last(), k));
                assert(ledger_lookup(entries, k) == ledger_lookup(entries.drop_last(), k));
                assert(ledger_lookup(entries.drop_last().update(j, e), k) == ledger_lookup(entries.drop_last(), k));
            }
        }
    }
}

impl BackoffLedger {
    /// The failures recorded for `key`.
    pub closed spec fn record_of(&self, key: Seq<Seq<char>>) -> Option<(u64, u32)> {
        ledger_lookup(self.entries@, key)
    }

    /// An empty ledger.
    pub fn new() -> (l: BackoffLedger)
        ensures
            forall|k: Seq<Seq<char>>| l.record_of(k) is None,
    {
        BackoffLedger { entries: Vec::new() }
    }

    /// The last failure time and failure count recorded for `key`.
    pub fn get(&self, key: &Vec<String>) -> (r: Option<(u64, u32)>)
        ensures
            r == self.record_of(ids_view(key@)),
    {
        let mut i: usize = self.entries.len();
        proof {
            assert(self.entries@.subrange(0, i as int) =~= self.entries@);
        }
        while i > 0
            invariant
                0 <= i <= self.entries@.len(),
                ledger_lookup(self.entries@, ids_view(key@)) == ledger_lookup(
                    self.entries@.subrange(0, i as int),
                    ids_view(key@),
                ),
            decreases i,
        {
            let ghost prefix = self.entries@.subrange(0, i as int);
            proof {
                assert(prefix.drop_last() =~= self.entries@.subrange(0, i - 1));
            }
            if same_ids(&self.entries[i - 1].key, key) {
                return Some((self.entries[i - 1].last_failure_ms, self.entries[i - 1].tries));
            }
            i -= 1;
        }
        None
    }

    /// Records one more failure for `key` at time `now_ms`: the count starts
    /// at one and grows by one (it stays at its largest value once there).
    pub fn record_failure(&mut self, key: &Vec<String>, now_ms: u64)
        ensures
            final(self).record_of(ids_view(key@)) == Some(
                (
                    now_ms,
                    match old(self).record_of(ids_view(key@)) {
                        None => 1u32,
                        Some((_, n)) => if n == u32::MAX {
                            n
                        } else {
                            (n + 1) as u32
                        },
                    },
                ),
            ),
            forall|k: Seq<Seq<char>>|
                k != ids_view(key@) ==> #[trigger] final(self).record_of(k) == old(self).record_of(k),
    {
        let tries: u32 = match self.get(key) {
            None => 1,
            Some((_, n)) => if n == u32::MAX {
                n
            } else {
                n + 1
            },
        };
        let entry = BackoffEntry { key: clone_ids(key), last_failure_ms: now_ms, tries };
        match self.last_index_of(key) {
            Some(j) => {
                let ghost before = self.entries@;
                self.entries.set(j, entry);
                proof {
                    lemma_lookup_update(before, j as int, entry, ids_view(key@));
                }
            },
            None => {
                self.entries.push(entry);
                proof {
                    assert(self.entries@.drop_last() =~= old(self).entries@);
                }
            },
        }
    }

    /// Where the last entry for `key` is, if there is one.
    fn last_index_of(&self, key: &Vec<String>) -> (r: Option<usize>)
        ensures
            r matches Some(j) ==> j < self.entries@.len() && ids_view(self.entries@[j as int].key@) == ids_view(
                key@,
            ) && forall|m: int|
                j < m < self.entries@.len() ==> ids_view(#[trigger] self.entries@[m].key@) != ids_view(key@),
            r is None ==> ledger_lookup(self.entries@, ids_view(key@)) is None,
    {
        let mut i: usize = self.entries.len();
        proof {
            assert(self.entries@.subrange(0, i as int) =~= self.entries@);
        }
        while i > 0
            invariant
                0 <= i <= self.entries@.len(),
                forall|m: int| i <= m < self.entries@.len() ==> ids_view(#[trigger] self.entries@[m].key@) != ids_view(key@),
                ledger_lookup(self.entries@, ids_view(key@)) == ledger_lookup(
                    self.entries@.subrange(0, i as int),
                    ids_view(key@),
                ),
            decreases i,
        {
            proof {
                assert(self.entries@.subrange(0, i as int).drop_last() =~= self.entries@.subrange(0, i - 1));
            }
            if same_ids(&self.entries[i - 1].key, key) {
                return Some(i - 1);
            }
            i -= 1;
        }
        None
    }

    /// Whether a fetch for `key` must still wait at time `now_ms`.
    pub fn is_backing_off(&self, key: &Vec<String>, now_ms: u64) -> (r: bool)
        ensures
            r == backing_off(self.record_of(ids_view(key@)), now_ms),
    {
        match self.get(key) {
            None => false,
            Some((t, n)) => {
                let elapsed: u64 = if now_ms >= t {
                    now_ms - t
                } else {
                    0
                };
                let window = backoff_window_secs(n);
                elapsed < window * 1000
            },
        }
    }
}

/// A public key of a server: its key id (such as `ed25519:abc`) and the key in base64.
#[derive(Debug, PartialEq)]
pub struct ServerKey {
    pub key_id: String,
    pub key: String,
}

/// `keys` holds a key with id `id`.
pub open spec fn has_key_id(keys: Seq<ServerKey>, id: Seq<char>) -> bool {
    exists|j: int| 0 <= j < keys.len() && (#[trigger] keys[j]).key_id@ == id
}

/// `keys` holds a key for each of `ids`.
pub open spec fn has_all_ids(keys: Seq<ServerKey>, ids: Seq<String>) -> bool {
    forall|i: int| 0 <= i < ids.len() ==> has_key_id(keys, (#[trigger] ids[i])@)
}

/// Whether `keys` holds a key for each of the signature ids.
pub fn contains_all_ids(keys: &Vec<ServerKey>, signature_ids: &Vec<String>) -> (r: bool)
    ensures
        r == has_all_ids(keys@, signature_ids@),
{
    let mut i: usize = 0;
    while i < signature_ids.len()
        invariant
            0 <= i <= signature_ids@.len(),
            forall|k: int| 0 <= k < i ==> has_key_id(keys@, (#[trigger] signature_ids@[k])@),
        decreases signature_ids@.len() - i,
    {
        let mut found = false;
        let mut j: usize = 0;
        while j < keys.len()
            invariant
                0 <= j <= keys@.len(),
                0 <= i < signature_ids@.len(),
                found == exists|m: int| 0 <= m < j && (#[trigger] keys@[m]).key_id@ == signature_ids@[i as int]@,
            decreases keys@.len() - j,
        {
            if keys[j].key_id == signature_ids[i] {
                found = true;
            }
            j += 1;
        }
        if !found {
            proof {
                assert(!has_key_id(keys@, signature_ids@[i as int]@));
            }
            return false;
        }
        i += 1;
    }
    true
}

fn clone_keys(keys: &Vec<ServerKey>) -> (r: Vec<ServerKey>)
    ensures
        r@ == keys@,
{
    let mut r: Vec<ServerKey> = Vec::new();
    let mut i: usize = 0;
    while i < keys.len()
        invariant
            0 <= i <= keys@.len(),
            r@ == keys@.subrange(0, i as int),
        decreases keys@.len() - i,
    {
        r.push(ServerKey { key_id: keys[i].key_id.clone(), key: keys[i].key.clone() });
        i += 1;
        proof {
            assert(r@ =~= keys@.subrange(0, i as int));
        }
    }
    proof {
        assert(keys@.subrange(0, keys@.len() as int) =~= keys@);
    }
    r
}

/// Where a signing key fetch stands after one of its steps.
#[derive(Debug, PartialEq)]
pub enum KeyFetchStep {
    /// Every required key is known: the keys gathered so far.
    Done(Vec<ServerKey>),
    /// Keys are still missing: the keys gathered so far; ask the next server.
    Continue(Vec<ServerKey>),
    /// The fetch failed.
    Failed(Error),
}

/// The error text while failures for the same ids are backed off from.
pub open spec fn backing_off_text() -> Seq<char> {
    "bad signature, still backing off"@
}

/// The error text once every server failed to give the keys.
pub open spec fn keys_not_found_text() -> Seq<char> {
    "Failed to find public key for server"@
}

/// The first step of a signing key fetch, once the per-server permit is held:
/// finish at once when the locally stored keys `cached` cover every id;
/// else fail at once while failures for the same ids are backed off from;
/// else go on asking.
pub fn start_key_fetch(
    ledger: &BackoffLedger,
    signature_ids: &Vec<String>,
    now_ms: u64,
    cached: Vec<ServerKey>,
) -> (r: KeyFetchStep)
    ensures
        has_all_ids(cached@, signature_ids@) ==> r == KeyFetchStep::Done(cached),
        !has_all_ids(cached@, signature_ids@) && backing_off(
            ledger.record_of(ids_view(signature_ids@)),
            now_ms,
        ) ==> (r matches KeyFetchStep::Failed(Error::BadServerResponse(m)) && m@ == backing_off_text()),
        !has_all_ids(cached@, signature_ids@) && !backing_off(
            ledger.record_of(ids_view(signature_ids@)),
            now_ms,
        ) ==> r == KeyFetchStep::Continue(cached),
{
    if contains_all_ids(&cached, signature_ids) {
        return KeyFetchStep::Done(cached);
    }
    if ledger.is_backing_off(signature_ids, now_ms) {
        proof {
            reveal_strlit("bad signature, still backing off");
        }
        return KeyFetchStep::Failed(
            Error::BadServerResponse("bad signature, still backing off".to_owned()),
        );
    }
    KeyFetchStep::Continue(cached)
}

/// A step of a signing key fetch after a server was asked: the keys it
/// returned, if it answered, are appended to those gathered so far (so that
/// reading the list in order, a later key of an id overrides an earlier
/// one), and the fetch is done when they cover every id.
pub fn continue_key_fetch(
    keys: Vec<ServerKey>,
    signature_ids: &Vec<String>,
    fetched: Option<Vec<ServerKey>>,
) -> (r: KeyFetchStep)
    ensures
        fetched is None ==> r == KeyFetchStep::Continue(keys),
        fetched matches Some(f) ==> if has_all_ids(keys@ + f@, signature_ids@) {
            (r matches KeyFetchStep::Done(v) && v@ == keys@ + f@)
        } else {
            (r matches KeyFetchStep::Continue(v) && v@ == keys@ + f@)
        },
{
    match fetched {
        None => KeyFetchStep::Continue(keys),
        Some(f) => {
            let mut merged = clone_keys(&keys);
            let mut i: usize = 0;
            while i < f.len()
                invariant
                    0 <= i <= f@.len(),
                    merged@ == keys@ + f@.subrange(0, i as int),
                decreases f@.len() - i,
            {
                merged.push(ServerKey { key_id: f[i].key_id.clone(), key: f[i].key.clone() });
                i += 1;
                proof {
                    assert(merged@ =~= keys@ + f@.subrange(0, i as int));
                }
            }
            proof {
                assert(f@.subrange(0, f@.len() as int) =~= f@);
            }
            if contains_all_ids(&merged, signature_ids) {
                KeyFetchStep::Done(merged)
            } else {
                KeyFetchStep::Continue(merged)
            }
        },
    }
}

/// The last step of a signing key fetch that every server failed: the
/// failure is recorded for the ids, and the fetch fails.
pub fn fail_key_fetch(ledger: &mut BackoffLedger, signature_ids: &Vec<String>, now_ms: u64) -> (e: Error)
    ensures
        e matches Error::BadServerResponse(m) && m@ == keys_not_found_text(),
        final(ledger).record_of(ids_view(signature_ids@)) == Some(
            (
                now_ms,
                match old(ledger).record_of(ids_view(signature_ids@)) {
                    None => 1u32,
                    Some((_, n)) => if n == u32::MAX {
                        n
                    } else {
                        (n + 1) as u32
                    },
                },
            ),
        ),
        forall|k: Seq<Seq<char>>|
            k != ids_view(signature_ids@) ==> #[trigger] final(ledger).record_of(k) == old(
                ledger,
            ).record_of(k),
{
    ledger.record_failure(signature_ids, now_ms);
    proof {
        reveal_strlit("Failed to find public key for server");
    }
    Error::BadServerResponse("Failed to find public key for server".to_owned())
}

/// The signatures of one server on an event: the server and its key ids.
pub struct SignatureSet {
    pub server: String,
    pub key_ids: Vec<String>,
}

/// The keys known for one server.
#[derive(Debug, PartialEq)]
pub struct ServerKeys {
    pub server: String,
    pub keys: Vec<ServerKey>,
}

/// The keys stored for `server`: those of its first entry, or none.
pub open spec fn stored_keys_of(stored: Seq<ServerKeys>, server: Seq<char>) -> Seq<ServerKey>
    decreases stored.len(),
{
    if stored.len() == 0 {
        Seq::empty()
    } else if stored[0].server@ == server {
        stored[0].keys@
    } else {
        stored_keys_of(stored.drop_first(), server)
    }
}

/// `k` is where `server` first signs in `sigs`.
pub open spec fn first_signature_of(sigs: Seq<SignatureSet>, server: Seq<char>, k: int) -> bool {
    &&& 0 <= k < sigs.len()
    &&& sigs[k].server@ == server
    &&& forall|j: int| 0 <= j < k ==> sigs[j].server@ != server
}

/// `server` signs somewhere in `sigs`.
pub open spec fn signs(sigs: Seq<SignatureSet>, server: Seq<char>) -> bool {
    exists|i: int| 0 <= i < sigs.len() && (#[trigger] sigs[i]).server@ == server
}

/// `server` must be asked for its keys: the keys stored for it do not cover
/// the key ids of its first signature.
pub open spec fn needs_fetch(sigs: Seq<SignatureSet>, stored: Seq<ServerKeys>, server: Seq<char>) -> bool {
    exists|k: int|
        #[trigger] first_signature_of(sigs, server, k) && !has_all_ids(
            stored_keys_of(stored, server),
            sigs[k].key_ids@,
        )
}

/// `entries` has no two entries for one server.
pub open spec fn distinct_servers(entries: Seq<ServerKeys>) -> bool {
    forall|i: int, j: int|
        0 <= i < j < entries.len() ==> (#[trigger] entries[i]).server@ != (#[trigger] entries[j]).server@
}

/// `entries` has an entry for `server`.
pub open spec fn has_server(entries: Seq<ServerKeys>, server: Seq<char>) -> bool {
    exists|i: int| 0 <= i < entries.len() && (#[trigger] entries[i]).server@ == server
}

fn find_stored(stored: &Vec<ServerKeys>, server: &String) -> (r: Vec<ServerKey>)
    ensures
        r@ == stored_keys_of(stored@, server@),
{
    let mut i: usize = 0;
    proof {
        assert(stored@.subrange(0, stored@.len() as int) =~= stored@);
    }
    while i < stored.len()
        invariant
            0 <= i <= stored@.len(),
            stored_keys_of(stored@, server@) == stored_keys_of(stored@.subrange(i as int, stored@.len() as int), server@),
        decreases stored@.len() - i,
    {
        let ghost rest = stored@.subrange(i as int, stored@.len() as int);
        proof {
            assert(rest[0] == stored@[i as int]);
            assert(rest.drop_first() =~= stored@.subrange(i + 1, stored@.len() as int));
        }
        if stored[i].server == *server {
            return clone_keys(&stored[i].keys);
        }
        i += 1;
    }
    proof {
        assert(stored@.subrange(i as int, stored@.len() as int) =~= Seq::<ServerKeys>::empty());
    }
    Vec::new()
}

fn has_server_exec(entries: &Vec<ServerKeys>, server: &String) -> (r: bool)
    ensures
        r == has_server(entries@, server@),
{
    let mut i: usize = 0;
    while i < entries.len()
        invariant
            0 <= i <= entries@.len(),
            forall|j: int| 0 <= j < i ==> (#[trigger] entries@[j]).server@ != server@,
        decreases entries@.len() - i,
    {
        if entries[i].server == *server {
            return true;
        }
        i += 1;
    }
    false
}

/// The signatures of servers that the key map `known` has no entry for.
pub open spec fn unknown_sigs(sigs: Seq<SignatureSet>, known: Seq<ServerKeys>) -> Seq<SignatureSet> {
    sigs.filter(|x: SignatureSet| !has_server(known, x.server@))
}

/// Plans the key fetch for the events of a room state handed over on join:
/// `sigs` are the signatures found on the events, in order, and `known` the
/// key map built so far, whose servers are skipped. Each other signing
/// server gets one new entry, holding the keys stored for it; the servers
/// whose stored keys do not cover their first signature are to be fetched,
/// in the order they first sign.
#[verifier::rlimit(100)]
#[verifier::spinoff_prover]
pub fn plan_join_key_fetch(sigs: &Vec<SignatureSet>, stored: &Vec<ServerKeys>, known: &Vec<ServerKeys>) -> (r: (
    Vec<String>,
    Vec<ServerKeys>,
))
    ensures
        distinct_servers(r.1@),
        forall|s: Seq<char>| has_server(r.1@, s) <==> signs(unknown_sigs(sigs@, known@), s),
        forall|s: Seq<char>| has_server(known@, s) ==> !has_server(r.1@, s) && !ids_view(r.0@).contains(s),
        forall|j: int|
            0 <= j < r.1@.len() ==> (#[trigger] r.1@[j]).keys@ == stored_keys_of(stored@, r.1@[j].server@),
        r.0@.no_duplicates(),
        forall|s: Seq<char>|
            ids_view(r.0@).contains(s) <==> (signs(unknown_sigs(sigs@, known@), s) && needs_fetch(
                unknown_sigs(sigs@, known@),
                stored@,
                s,
            )),
{
    let mut to_fetch: Vec<String> = Vec::new();
    let mut map: Vec<ServerKeys> = Vec::new();
    let mut i: usize = 0;
    while i < sigs.len()
        invariant
            0 <= i <= sigs@.len(),
            distinct_servers(map@),
            forall|s: Seq<char>| has_server(map@, s) <==> signs(unknown_sigs(sigs@.subrange(0, i as int), known@), s),
            forall|j: int|
                0 <= j < map@.len() ==> (#[trigger] map@[j]).keys@ == stored_keys_of(stored@, map@[j].server@),
            to_fetch@.no_duplicates(),
            forall|s: Seq<char>|
                ids_view(to_fetch@).contains(s) <==> (signs(unknown_sigs(sigs@.subrange(0, i as int), known@), s)
                    && needs_fetch(unknown_sigs(sigs@.subrange(0, i as int), known@), stored@, s)),
        decreases sigs@.len() - i,
    {
        let ghost pre = unknown_sigs(sigs@.subrange(0, i as int), known@);
        let ghost next = unknown_sigs(sigs@.subrange(0, i + 1), known@);
        let ghost p = pre.len() as int;
        let server = &sigs[i].server;
        proof {
            assert(sigs@.subrange(0, i + 1) =~= sigs@.subrange(0, i as int).push(sigs@[i as int]));
            sigs@.subrange(0, i as int).lemma_filter_push(
                sigs@[i as int],
                |x: SignatureSet| !has_server(known@, x.server@),
            );
        }
        if has_server_exec(known, server) {
            proof {
                assert(next == pre);
                assert forall|s: Seq<char>|
                    ids_view(to_fetch@).contains(s) <==> (signs(next, s) && needs_fetch(next, stored@, s)) by {
                    assert(ids_view(to_fetch@).contains(s) <==> (signs(pre, s) && needs_fetch(pre, stored@, s)));
                }
            }
            i += 1;
            continue;
        }
        proof {
            assert(next == pre.push(sigs@[i as int]));
        }
        if has_server_exec(&map, server) {
            proof {
                assert forall|s: Seq<char>| signs(next, s) <==> signs(pre, s) by {
                    if signs(next, s) {
                        let k = choose|k: int| 0 <= k < next.len() && (#[trigger] next[k]).server@ == s;
                        if k == p {
                            assert(has_server(map@, s));
                        } else {
                            assert(pre[k] == next[k]);
                        }
                    }
                    if signs(pre, s) {
                        let k = choose|k: int| 0 <= k < pre.len() && (#[trigger] pre[k]).server@ == s;
                        assert(next[k] == pre[k]);
                    }
                }
                assert forall|s: Seq<char>| signs(pre, s) implies needs_fetch(next, stored@, s) == needs_fetch(pre, stored@, s) by {
                    lemma_first_signature_prefix(pre, next, stored@, s);
                }
                assert forall|s: Seq<char>| has_server(map@, s) <==> signs(next, s) by {
                    assert(signs(next, s) <==> signs(pre, s));
                }
                assert forall|s: Seq<char>|
                    ids_view(to_fetch@).contains(s) <==> (signs(next, s) && needs_fetch(next, stored@, s)) by {
                    assert(signs(next, s) <==> signs(pre, s));
                    if signs(pre, s) {
                        assert(needs_fetch(next, stored@, s) == needs_fetch(pre, stored@, s));
                    }
                }
            }
        } else {
            let cached = find_stored(stored, server);
            let needs = !contains_all_ids(&cached, &sigs[i].key_ids);
            let ghost to_fetch0 = to_fetch@;
            let ghost map0 = map@;
            if needs {
                to_fetch.push(server.clone());
            }
            map.push(ServerKeys { server: server.clone(), keys: cached });
            proof {
                let sv = sigs@[i as int].server@;
                assert(!signs(pre, sv));
                assert(first_signature_of(next, sv, p)) by {
                    assert forall|j: int| 0 <= j < p implies next[j].server@ != sv by {
                        assert(next[j] == pre[j]);
                        if next[j].server@ == sv {
                            assert(signs(pre, sv));
                        }
                    }
                }
                assert forall|s: Seq<char>| #[trigger] signs(next, s) <==> signs(pre, s) || s == sv by {
                    if signs(next, s) {
                        let k = choose|k: int| 0 <= k < next.len() && (#[trigger] next[k]).server@ == s;
                        if k < p {
                            assert(pre[k] == next[k]);
                        }
                    }
                    if signs(pre, s) {
                        let k = choose|k: int| 0 <= k < pre.len() && (#[trigger] pre[k]).server@ == s;
                        assert(next[k] == pre[k]);
                    }
                    if s == sv {
                        assert(next[p].server@ == s);
                    }
                }
                assert forall|s: Seq<char>| has_server(map@, s) <==> has_server(map0, s) || s == sv by {
                    if has_server(map@, s) {
                        let k = choose|k: int| 0 <= k < map@.len() && (#[trigger] map@[k]).server@ == s;
                        if k < map0.len() {
                            assert(map@[k] == map0[k]);
                        }
                    }
                    if has_server(map0, s) {
                        let k = choose|k: int| 0 <= k < map0.len() && (#[trigger] map0[k]).server@ == s;
                        assert(map@[k] == map0[k]);
                    }
                    if s == sv {
                        assert(map@[map0.len() as int].server@ == s);
                    }
                }
                assert(distinct_servers(map@)) by {
                    assert forall|a: int, b: int| 0 <= a < b < map@.len() implies (#[trigger] map@[a]).server@
                        != (#[trigger] map@[b]).server@ by {
                        if b == map0.len() {
                            assert(map@[a] == map0[a]);
                            if map0[a].server@ == sv {
                                assert(has_server(map0, sv));
                            }
                        } else {
                            assert(map@[a] == map0[a] && map@[b] == map0[b]);
                        }
                    }
                }
                assert forall|j: int| 0 <= j < map@.len() implies (#[trigger] map@[j]).keys@
                    == stored_keys_of(stored@, map@[j].server@) by {
                    if j < map0.len() {
                        assert(map@[j] == map0[j]);
                    }
                }
                assert(needs == !has_all_ids(stored_keys_of(stored@, sv), next[p].key_ids@));
                assert forall|s: Seq<char>| signs(pre, s) implies needs_fetch(next, stored@, s) == needs_fetch(pre, stored@, s) by {
                    lemma_first_signature_prefix(pre, next, stored@, s);
                }
                assert(needs_fetch(next, stored@, sv) == needs) by {
                    if needs_fetch(next, stored@, sv) {
                        let k = choose|k: int|
                            #[trigger] first_signature_of(next, sv, k) && !has_all_ids(
                                stored_keys_of(stored@, sv),
                                next[k].key_ids@,
                            );
                        if k < p {
                            assert(next[k].server@ != sv);
                        }
                    }
                }
                if needs {
                    assert(to_fetch@ == to_fetch0.push(sigs@[i as int].server));
                } else {
                    assert(to_fetch@ == to_fetch0);
                }
                assert forall|s: Seq<char>| ids_view(to_fetch@).contains(s) <==> ids_view(to_fetch0).contains(s)
                    || (s == sv && needs) by {
                    let a = ids_view(to_fetch@);
                    let b = ids_view(to_fetch0);
                    if needs {
                        assert(a =~= b.push(sv));
                        if a.contains(s) {
                            let k = choose|k: int| 0 <= k < a.len() && a[k] == s;
                            if k < b.len() {
                                assert(b[k] == s);
                            }
                        }
                        if b.contains(s) {
                            let k = choose|k: int| 0 <= k < b.len() && b[k] == s;
                            assert(a[k] == s);
                        }
                        if s == sv {
                            assert(a[b.len() as int] == s);
                        }
                    } else {
                        assert(a =~= b);
                    }
                }
                assert forall|s: Seq<char>| has_server(map@, s) <==> signs(next, s) by {
                    assert(has_server(map@, s) <==> has_server(map0, s) || s == sv);
                    assert(signs(next, s) <==> signs(pre, s) || s == sv);
                }
                assert forall|s: Seq<char>|
                    ids_view(to_fetch@).contains(s) <==> (signs(next, s) && needs_fetch(next, stored@, s)) by {
                    assert(ids_view(to_fetch@).contains(s) <==> ids_view(to_fetch0).contains(s) || (s == sv && needs));
                    assert(signs(next, s) <==> signs(pre, s) || s == sv);
                    if signs(pre, s) {
                        assert(needs_fetch(next, stored@, s) == needs_fetch(pre, stored@, s));
                    }
                }
                if needs {
                    assert(to_fetch@.no_duplicates()) by {
                        assert forall|a: int, b: int| 0 <= a < to_fetch@.len() && 0 <= b < to_fetch@.len() && a != b
                            implies to_fetch@[a] != to_fetch@[b] by {
                            if a == to_fetch0.len() || b == to_fetch0.len() {
                                let o = if a == to_fetch0.len() { b } else { a };
                                assert(to_fetch@[o] == to_fetch0[o]);
                                assert(ids_view(to_fetch0)[o] == to_fetch0[o]@);
                                if to_fetch0[o]@ == sv {
                                    assert(ids_view(to_fetch0).contains(sv));
                                }
                            } else {
                                assert(to_fetch@[a] == to_fetch0[a] && to_fetch@[b] == to_fetch0[b]);
                            }
                        }
                    }
                }
            }
        }
        i += 1;
    }
    proof {
        assert(sigs@.subrange(0, sigs@.len() as int) =~= sigs@);
        assert forall|s: Seq<char>| has_server(known@, s) implies !signs(unknown_sigs(sigs@, known@), s) by {
            if signs(unknown_sigs(sigs@, known@), s) {
                let k = choose|k: int|
                    0 <= k < unknown_sigs(sigs@, known@).len() && (#[trigger] unknown_sigs(sigs@, known@)[k]).server@ == s;
                assert(unknown_sigs(sigs@, known@).contains(unknown_sigs(sigs@, known@)[k]));
            }
        }
    }
    (to_fetch, map)
}

/// A server that signs has a first signature.
proof fn lemma_first_signature_exists(sigs: Seq<SignatureSet>, s: Seq<char>)
    requires
        signs(sigs, s),
    ensures
        exists|k: int| #[trigger] first_signature_of(sigs, s, k),
    decreases sigs.len(),
{
    let p = sigs.drop_last();
    if signs(p, s) {
        lemma_first_signature_exists(p, s);
        let k = choose|k: int| #[trigger] first_signature_of(p, s, k);
        assert(sigs[k] == p[k]);
        assert forall|j: int| 0 <= j < k implies sigs[j].server@ != s by {
            assert(sigs[j] == p[j]);
        }
        assert(first_signature_of(sigs, s, k));
    } else {
        let k = sigs.len() - 1;
        assert forall|j: int| 0 <= j < k implies sigs[j].server@ != s by {
            assert(p[j] == sigs[j]);
            if sigs[j].server@ == s {
                assert(signs(p, s));
            }
        }
        let w = choose|i: int| 0 <= i < sigs.len() && (#[trigger] sigs[i]).server@ == s;
        if w < k {
            assert(false);
        }
        assert(first_signature_of(sigs, s, k));
    }
}

/// Extending the signatures leaves the first signature of a server that
/// signed already where it was.
proof fn lemma_first_signature_prefix(
    pre: Seq<SignatureSet>,
    next: Seq<SignatureSet>,
    stored: Seq<ServerKeys>,
    s: Seq<char>,
)
    requires
        next.len() == pre.len() + 1,
        forall|j: int| 0 <= j < pre.len() ==> next[j] == pre[j],
        signs(pre, s),
    ensures
        needs_fetch(next, stored, s) == needs_fetch(pre, stored, s),
{
    lemma_first_signature_exists(pre, s);
    let k = choose|k: int| #[trigger] first_signature_of(pre, s, k);
    assert(first_signature_of(next, s, k)) by {
        assert forall|j: int| 0 <= j < k implies next[j].server@ != s by {
            assert(next[j] == pre[j]);
        }
        assert(next[k] == pre[k]);
    }
    assert forall|k2: int| #[trigger] first_signature_of(next, s, k2) implies k2 == k by {
        if k2 < k {
            assert(next[k2] == pre[k2]);
        }
        if k < k2 {
            assert(next[k].server@ == s);
        }
    }
    assert forall|k2: int| #[trigger] first_signature_of(pre, s, k2) implies k2 == k by {
        if k2 < k {
            assert(pre[k2].server@ == s);
        }
        if k < k2 {
            assert(pre[k].server@ == s);
        }
    }
    if needs_fetch(next, stored, s) {
        let k2 = choose|k2: int|
            #[trigger] first_signature_of(next, s, k2) && !has_all_ids(stored_keys_of(stored, s), next[k2].key_ids@);
        assert(k2 == k);
        assert(next[k] == pre[k]);
    }
    if needs_fetch(pre, stored, s) {
        let k2 = choose|k2: int|
            #[trigger] first_signature_of(pre, s, k2) && !has_all_ids(stored_keys_of(stored, s), pre[k2].key_ids@);
        assert(k2 == k);
        assert(next[k] == pre[k]);
    }
}

/// The keys an entry of `entries` holds for `server`.
pub open spec fn map_keys_of(entries: Seq<ServerKeys>, server: Seq<char>) -> Option<Seq<ServerKey>> {
    if has_server(entries, server) {
        let i = choose|i: int| 0 <= i < entries.len() && (#[trigger] entries[i]).server@ == server;
        Some(entries[i].keys@)
    } else {
        None
    }
}

/// Takes in the keys learnt for `answer.server` (the keys the key store
/// holds for it once the answer is added): it is no longer to be fetched,
/// and its entry in the key map now holds those keys.
pub fn take_server_keys(to_fetch: &mut Vec<String>, map: &mut Vec<ServerKeys>, answer: ServerKeys)
    requires
        distinct_servers(old(map)@),
    ensures
        ids_view(final(to_fetch)@) == ids_view(old(to_fetch)@).filter(|s: Seq<char>| s != answer.server@),
        distinct_servers(final(map)@),
        map_keys_of(final(map)@, answer.server@) == Some(answer.keys@),
        forall|s: Seq<char>|
            s != answer.server@ ==> #[trigger] map_keys_of(final(map)@, s) == map_keys_of(old(map)@, s),
{
    let mut kept: Vec<String> = Vec::new();
    let mut i: usize = 0;
    while i < to_fetch.len()
        invariant
            0 <= i <= to_fetch@.len(),
            to_fetch@ == old(to_fetch)@,
            ids_view(kept@) == ids_view(to_fetch@.subrange(0, i as int)).filter(
                |s: Seq<char>| s != answer.server@,
            ),
        decreases to_fetch@.len() - i,
    {
        let ghost pre = to_fetch@.subrange(0, i as int);
        if to_fetch[i] != answer.server {
            kept.push(to_fetch[i].clone());
        }
        proof {
            assert(ids_view(to_fetch@.subrange(0, i + 1)) =~= ids_view(pre).push(to_fetch@[i as int]@));
            ids_view(pre).lemma_filter_push(to_fetch@[i as int]@, |s: Seq<char>| s != answer.server@);
            assert(ids_view(kept@) =~= ids_view(to_fetch@.subrange(0, i + 1)).filter(
                |s: Seq<char>| s != answer.server@,
            ));
        }
        i += 1;
    }
    proof {
        assert(to_fetch@.subrange(0, to_fetch@.len() as int) =~= to_fetch@);
    }
    *to_fetch = kept;
    let mut j: usize = 0;
    while j < map.len() && map[j].server != answer.server
        invariant
            0 <= j <= map@.len(),
            map@ == old(map)@,
            forall|k: int| 0 <= k < j ==> (#[trigger] map@[k]).server@ != answer.server@,
        decreases map@.len() - j,
    {
        j += 1;
    }
    let ghost before = map@;
    let ghost sv = answer.server@;
    let ghost kv = answer.keys@;
    if j < map.len() {
        map.set(j, answer);
        proof {
            assert(before[j as int].server@ == sv);
            assert(distinct_servers(map@)) by {
                assert forall|a: int, b: int| 0 <= a < b < map@.len() implies (#[trigger] map@[a]).server@
                    != (#[trigger] map@[b]).server@ by {
                    if a != j && b != j {
                        assert(map@[a] == before[a] && map@[b] == before[b]);
                    } else if a == j {
                        assert(map@[b] == before[b]);
                        assert(before[a].server@ != before[b].server@);
                    } else {
                        assert(map@[a] == before[a]);
                        assert(before[a].server@ != before[b].server@);
                    }
                }
            }
            lemma_map_keys_at(map@, j as int);
            assert forall|s: Seq<char>| s != sv implies #[trigger] map_keys_of(map@, s) == map_keys_of(before, s) by {
                lemma_map_keys_same(before, map@, j as int, s);
            }
        }
    } else {
        map.push(answer);
        proof {
            assert(distinct_servers(map@)) by {
                assert forall|a: int, b: int| 0 <= a < b < map@.len() implies (#[trigger] map@[a]).server@
                    != (#[trigger] map@[b]).server@ by {
                    assert(map@[a] == before[a]);
                    if b < before.len() {
                        assert(map@[b] == before[b]);
                    }
                }
            }
            lemma_map_keys_at(map@, before.len() as int);
            assert forall|s: Seq<char>| s != sv implies #[trigger] map_keys_of(map@, s) == map_keys_of(before, s) by {
                lemma_map_keys_same(before, map@, before.len() as int, s);
            }
        }
    }
}

proof fn lemma_map_keys_at(entries: Seq<ServerKeys>, j: int)
    requires
        distinct_servers(entries),
        0 <= j < entries.len(),
    ensures
        map_keys_of(entries, entries[j].server@) == Some(entries[j].keys@),
{
    let s = entries[j].server@;
    assert(has_server(entries, s));
    let i = choose|i: int| 0 <= i < entries.len() && (#[trigger] entries[i]).server@ == s;
    if i != j {
        if i < j {
            assert(entries[i].server@ != entries[j].server@);
        } else {
            assert(entries[j].server@ != entries[i].server@);
        }
    }
}

/// Entries that differ only at `j` (an entry for another server, or none
/// before) hold the same keys for every server but the one at `j`.
proof fn lemma_map_keys_same(before: Seq<ServerKeys>, after: Seq<ServerKeys>, j: int, s: Seq<char>)
    requires
        distinct_servers(before),
        distinct_servers(after),
        0 <= j < after.len(),
        after.len() == before.len() || (after.len() == before.len() + 1 && j == before.len()),
        forall|k: int| 0 <= k < before.len() && k != j ==> after[k] == before[k],
        j < before.len() ==> before[j].server@ == after[j].server@,
        s != after[j].server@,
    ensures
        map_keys_of(after, s) == map_keys_of(before, s),
{
    if has_server(after, s) {
        let i = choose|i: int| 0 <= i < after.len() && (#[trigger] after[i]).server@ == s;
        assert(i != j);
        assert(before[i] == after[i]);
        lemma_map_keys_at(after, i);
        lemma_map_keys_at(before, i);
    } else if has_server(before, s) {
        let i = choose|i: int| 0 <= i < before.len() && (#[trigger] before[i]).server@ == s;
        if i == j {
            assert(before[j].server@ == after[j].server@);
        }
        assert(after[i] == before[i]);
    }
}

/// How long this server's published keys are valid: seven days, in milliseconds.
pub const KEY_VALIDITY_MS: u64 = 7 * 86400 * 1000;

/// Until when keys published at `now_ms` are valid: seven days later; none
/// when that time does not fit.
pub fn server_keys_valid_until(now_ms: u64) -> (r: Option<u64>)
    ensures
        now_ms as int + KEY_VALIDITY_MS as int <= u64::MAX as int ==> r == Some((now_ms + KEY_VALIDITY_MS) as u64),
        now_ms as int + KEY_VALIDITY_MS as int > u64::MAX as int ==> r is None,
{
    now_ms.checked_add(KEY_VALIDITY_MS)
}

/// The id under which this server publishes its key of version `version`.
pub fn verify_key_id(version: &str) -> (r: String)
    ensures
        r@ == "ed25519:"@ + version@,
{
    let mut r = String::new();
    crate::text::push_str(&mut r, "ed25519:");
    crate::text::push_str(&mut r, version);
    r
}

/// Whether an event that failed before must still be left alone at time
/// `now_ms`: the bad-event ledger is keyed by the event id alone.
pub fn event_backing_off(ledger: &BackoffLedger, event_id: &String, now_ms: u64) -> (r: bool)
    ensures
        r == backing_off(ledger.record_of(seq![event_id@]), now_ms),
{
    let key: Vec<String> = vec![event_id.clone()];
    proof {
        assert(ids_view(key@) =~= seq![event_id@]);
    }
    ledger.is_backing_off(&key, now_ms)
}

/// Whom a signing key fetch asks next.
#[derive(Debug, PartialEq)]
pub enum KeySource {
    /// The server whose keys are wanted.
    Origin,
    /// The trusted notary at this position.
    Notary(usize),
}

/// Whom to ask after `asked` servers were asked without success: first the
/// server itself, then each of the `notaries` trusted servers in turn; none
/// once all were asked (the fetch then fails).
pub fn next_key_source(asked: usize, notaries: usize) -> (r: Option<KeySource>)
    ensures
        asked == 0 ==> r == Some(KeySource::Origin),
        1 <= asked <= notaries ==> r == Some(KeySource::Notary((asked - 1) as usize)),
        asked > notaries ==> r is None,
{
    if asked == 0 {
        Some(KeySource::Origin)
    } else if asked <= notaries {
        Some(KeySource::Notary(asked - 1))
    } else {
        None
    }
}

} // verus!
