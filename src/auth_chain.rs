use std::collections::HashMap;
use std::collections::HashSet;
use vstd::prelude::*;
use vstd::set_lib::full_set_properties;
use vstd::set_lib::lemma_len_subset;

use crate::error::{Error, ErrorKind};

verus! {

broadcast use {vstd::std_specs::hash::group_hash_axioms, full_set_properties};

/// A stored event as the auth chain walk sees it: the room it belongs to and
/// the short ids of the events that authorize it.
pub struct AuthEvent {
    pub room_id: String,
    pub auth_events: Vec<u64>,
}

/// Read access to the stored events, keyed by short event id.
pub struct EventStore {
    pub events: HashMap<u64, AuthEvent>,
}

impl View for EventStore {
    type V = Map<u64, AuthEvent>;

    open spec fn view(&self) -> Map<u64, AuthEvent> {
        self.events@
    }
}

/// The auth events of `x`; an event missing from the store has none.
pub open spec fn auth_edges(g: Map<u64, AuthEvent>, x: u64) -> Seq<u64> {
    if g.contains_key(x) {
        g[x].auth_events@
    } else {
        Seq::empty()
    }
}

/// `p` follows auth edges from its first event to its last, over at least one edge.
pub open spec fn is_auth_path(g: Map<u64, AuthEvent>, p: Seq<u64>) -> bool {
    &&& p.len() >= 2
    &&& forall|i: int| 0 <= i < p.len() - 1 ==> #[trigger] auth_edges(g, p[i]).contains(p[i + 1])
}

/// `y` is reached from `x` by following one or more auth edges.
pub open spec fn reaches(g: Map<u64, AuthEvent>, x: u64, y: u64) -> bool {
    exists|p: Seq<u64>| #[trigger] is_auth_path(g, p) && p[0] == x && p.last() == y
}

/// The auth chain of one event.
pub open spec fn auth_chain_of(g: Map<u64, AuthEvent>, x: u64) -> Set<u64> {
    Set::new(|y: u64| reaches(g, x, y))
}

/// The auth chain of a set of events: the union of their auth chains.
pub open spec fn auth_chain_of_set(g: Map<u64, AuthEvent>, s: Set<u64>) -> Set<u64> {
    Set::new(|y: u64| exists|x: u64| s.contains(x) && #[trigger] reaches(g, x, y))
}

/// A stored event among `s` or their auth chain belongs to a room other than `room_id`.
pub open spec fn foreign_event_in_chain(
    g: Map<u64, AuthEvent>,
    room_id: Seq<char>,
    s: Set<u64>,
) -> bool {
    exists|y: u64| #[trigger] g.contains_key(y) && (s.contains(y) || auth_chain_of_set(g, s).contains(y))
        && g[y].room_id@ != room_id
}

proof fn lemma_foreign_witness(g: Map<u64, AuthEvent>, room_id: Seq<char>, s: Set<u64>, y: u64)
    requires
        s.contains(y) || auth_chain_of_set(g, s).contains(y),
        g.contains_key(y),
        g[y].room_id@ != room_id,
    ensures
        foreign_event_in_chain(g, room_id, s),
{
    assert(auth_chain_of_set(g, s).contains(y) || !auth_chain_of_set(g, s).contains(y));
}

proof fn lemma_reaches_step(g: Map<u64, AuthEvent>, x: u64, e: u64, a: u64)
    requires
        x == e || reaches(g, x, e),
        auth_edges(g, e).contains(a),
    ensures
        reaches(g, x, a),
{
    if x == e {
        let p = seq![x, a];
        assert(is_auth_path(g, p));
    } else {
        let p = choose|p: Seq<u64>| #[trigger] is_auth_path(g, p) && p[0] == x && p.last() == e;
        let q = p.push(a);
        assert forall|i: int| 0 <= i < q.len() - 1 implies #[trigger] auth_edges(g, q[i]).contains(
            q[i + 1],
        ) by {
            if i < p.len() - 1 {
                assert(q[i] == p[i] && q[i + 1] == p[i + 1]);
            }
        }
        assert(is_auth_path(g, q));
    }
}

/// Every event after the first on an auth path from `x` lies in `found`, when
/// `found` holds the auth events of `x` and of each of its own members.
proof fn lemma_closed_contains_path(g: Map<u64, AuthEvent>, x: u64, found: Set<u64>, p: Seq<u64>, i: int)
    requires
        is_auth_path(g, p),
        p[0] == x,
        1 <= i < p.len(),
        forall|z: u64, a: u64|
            (z == x || found.contains(z)) && #[trigger] auth_edges(g, z).contains(a)
                ==> found.contains(a),
    ensures
        found.contains(p[i]),
    decreases i,
{
    if i > 1 {
        lemma_closed_contains_path(g, x, found, p, i - 1);
    }
    let k = i - 1;
    assert(auth_edges(g, p[k]).contains(p[k + 1]));
    assert(p[k + 1] == p[i]);
}

/// `z` was taken off the walk's work list: it is of the right room when stored,
/// and its auth events are all in `found`.
spec fn settled(g: Map<u64, AuthEvent>, room_id: Seq<char>, found: Set<u64>, z: u64) -> bool {
    &&& g.contains_key(z) ==> g[z].room_id@ == room_id
    &&& forall|a: u64| #[trigger] auth_edges(g, z).contains(a) ==> found.contains(a)
}

proof fn lemma_settled_grows(
    g: Map<u64, AuthEvent>,
    room_id: Seq<char>,
    f1: Set<u64>,
    f2: Set<u64>,
    z: u64,
)
    requires
        settled(g, room_id, f1, z),
        f1.subset_of(f2),
    ensures
        settled(g, room_id, f2, z),
{
}

/// The error of a walk that met a stored event of another room.
pub open spec fn is_evil_event_error(e: Error) -> bool {
    e matches Error::BadRequest(ErrorKind::Forbidden, m) && m@ == "Evil event in db"@
}

/// A foreign event met from a set is met from one of its members.
proof fn lemma_foreign_from_member(g: Map<u64, AuthEvent>, room_id: Seq<char>, s: Set<u64>) -> (x: u64)
    requires
        foreign_event_in_chain(g, room_id, s),
    ensures
        s.contains(x),
        foreign_event_in_chain(g, room_id, set![x]),
{
    let y = choose|y: u64| #[trigger] g.contains_key(y) && (s.contains(y) || auth_chain_of_set(g, s).contains(y))
        && g[y].room_id@ != room_id;
    if s.contains(y) {
        assert(set![y].contains(y));
        lemma_foreign_witness(g, room_id, set![y], y);
        y
    } else {
        let x = choose|x: u64| s.contains(x) && #[trigger] reaches(g, x, y);
        assert(set![x].contains(x));
        assert(auth_chain_of_set(g, set![x]).contains(y));
        lemma_foreign_witness(g, room_id, set![x], y);
        x
    }
}

/// Walks the auth events of `event_id` and returns its auth chain; fails when
/// the walk meets a stored event of another room.
pub fn get_auth_chain_inner(store: &EventStore, room_id: &String, event_id: u64) -> (r: Result<
    Vec<u64>,
    Error,
>)
    ensures
        r is Ok <==> !foreign_event_in_chain(store@, room_id@, set![event_id]),
        r matches Ok(v) ==> v@.no_duplicates() && v@.to_set() == auth_chain_of(store@, event_id),
        r matches Err(e) ==> is_evil_event_error(e),
{
    let ghost g = store@;
    let ghost x = event_id;
    let ghost room = room_id@;
    let mut pending: Vec<u64> = Vec::new();
    pending.push(event_id);
    let mut found: HashSet<u64> = HashSet::new();
    let mut found_list: Vec<u64> = Vec::new();
    proof {
        assert(Set::<u64>::full().finite());
        assert(pending@[0] == x);
    }
    while pending.len() > 0
        invariant
            g == store@,
            x == event_id,
            room == room_id@,
            found@ == found_list@.to_set(),
            found_list@.no_duplicates(),
            forall|y: u64| found@.contains(y) ==> reaches(g, x, y),
            forall|z: u64| #[trigger] pending@.contains(z) ==> z == x || found@.contains(z),
            forall|z: u64|
                #![trigger found@.contains(z)]
                #![trigger pending@.contains(z)]
                (z == x || found@.contains(z)) ==> pending@.contains(z) || settled(g, room, found@, z),
            Set::<u64>::full().finite(),
        decreases 2 * (Set::<u64>::full().len() - found@.len()) + pending@.len(),
    {
        proof {
            lemma_len_subset(found@, Set::<u64>::full());
        }
        let ghost pending0 = pending@;
        let ghost found0 = found@;
        let e = pending.pop().unwrap();
        proof {
            assert(pending0 =~= pending@.push(e));
            assert(pending0[pending0.len() - 1] == e);
            assert(pending0.contains(e));
            assert forall|z: u64| #[trigger] pending@.contains(z) implies pending0.contains(z) by {
                let k = choose|k: int| 0 <= k < pending@.len() && pending@[k] == z;
                assert(pending0[k] == z);
            }
            assert forall|z: u64| pending0.contains(z) && z != e implies #[trigger] pending@.contains(z) by {
                let k = choose|k: int| 0 <= k < pending0.len() && pending0[k] == z;
                assert(pending@[k] == z);
            }
        }
        match store.events.get(&e) {
            None => {
                proof {
                    assert(settled(g, room, found@, e));
                    assert forall|z: u64|
                        #![trigger found@.contains(z)]
                        #![trigger pending@.contains(z)]
                        (z == x || found@.contains(z)) implies pending@.contains(z) || settled(
                        g,
                        room,
                        found@,
                        z,
                    ) by {
                        if pending0.contains(z) && z != e {
                            assert(pending@.contains(z));
                        }
                    }
                }
            },
            Some(pdu) => {
                if pdu.room_id != *room_id {
                    proof {
                        assert(e == x || found@.contains(e));
                        if e != x {
                            assert(set![x].contains(x) && reaches(g, x, e));
                            assert(auth_chain_of_set(g, set![x]).contains(e));
                        } else {
                            assert(set![x].contains(e));
                        }
                        lemma_foreign_witness(g, room_id@, set![x], e);
                    }
                    proof {
                        reveal_strlit("Evil event in db");
                    }
                    return Err(Error::bad_request(ErrorKind::Forbidden, "Evil event in db"));
                }
                let ghost pending_mid = pending@;
                let n = pdu.auth_events.len();
                let mut j: usize = 0;
                while j < n
                    invariant
                        g == store@,
                        room == room_id@,
                        g.contains_key(e),
                        *pdu == g[e],
                        g[e].room_id@ == room,
                        n == pdu.auth_events@.len(),
                        0 <= j <= n,
                        e == x || found0.contains(e),
                        pending0 == pending_mid.push(e),
                        found0.subset_of(found@),
                        found@ == found_list@.to_set(),
                        found_list@.no_duplicates(),
                        forall|y: u64| found@.contains(y) ==> reaches(g, x, y),
                        forall|z: u64| #[trigger] pending@.contains(z) ==> z == x || found@.contains(z),
                        forall|z: u64| #[trigger] pending_mid.contains(z) ==> pending@.contains(z),
                        forall|z: u64|
                            #[trigger] found@.contains(z) && !found0.contains(z) ==> pending@.contains(z),
                        forall|z: u64|
                            #![trigger found0.contains(z)]
                            #![trigger pending0.contains(z)]
                            (z == x || found0.contains(z)) ==> pending0.contains(z) || settled(
                                g,
                                room,
                                found0,
                                z,
                            ),
                        forall|k: int| 0 <= k < j ==> found@.contains(#[trigger] pdu.auth_events@[k]),
                        Set::<u64>::full().finite(),
                        found@.len() >= found0.len(),
                        pending@.len() == pending_mid.len() + (found@.len() - found0.len()),
                    decreases n - j,
                {
                    let a = pdu.auth_events[j];
                    if !found.contains(&a) {
                        proof {
                            lemma_reaches_step(g, x, e, a);
                            lemma_len_subset(found@, Set::<u64>::full());
                            found_list@.lemma_push_to_set_commute(a);
                        }
                        found.insert(a);
                        found_list.push(a);
                        let ghost pending_old = pending@;
                        pending.push(a);
                        proof {
                            assert forall|z: u64| #[trigger] pending_mid.contains(z) implies pending@.contains(z) by {
                                assert(pending_old.contains(z));
                                let k = choose|k: int| 0 <= k < pending_old.len() && pending_old[k] == z;
                                assert(pending@[k] == z);
                            }
                            assert forall|z: u64| #[trigger] pending@.contains(z) implies z == x || found@.contains(z) by {
                                let k = choose|k: int| 0 <= k < pending@.len() && pending@[k] == z;
                                if k < pending_old.len() {
                                    assert(pending_old[k] == z);
                                    assert(pending_old.contains(z));
                                } else {
                                    assert(z == a);
                                }
                            }
                            assert forall|z: u64| #[trigger] found@.contains(z) && !found0.contains(z) implies pending@.contains(z) by {
                                if z != a {
                                    assert(pending_old.contains(z));
                                    let k = choose|k: int| 0 <= k < pending_old.len() && pending_old[k] == z;
                                    assert(pending@[k] == z);
                                } else {
                                    assert(pending@[pending@.len() - 1] == a);
                                }
                            }
                            assert(found_list@.no_duplicates()) by {
                                assert(found_list@.drop_last() =~= found_list@.subrange(0, found_list@.len() - 1));
                            }
                        }
                    }
                    j += 1;
                }
                proof {
                    assert forall|a: u64| #[trigger] auth_edges(g, e).contains(a) implies found@.contains(a) by {
                        let k = choose|k: int| 0 <= k < pdu.auth_events@.len() && pdu.auth_events@[k] == a;
                        assert(k < j);
                        assert(found@.contains(pdu.auth_events@[k]));
                    }
                    assert(settled(g, room, found@, e));
                    assert forall|z: u64|
                        #![trigger found@.contains(z)]
                        #![trigger pending@.contains(z)]
                        (z == x || found@.contains(z)) implies pending@.contains(z) || settled(
                        g,
                        room,
                        found@,
                        z,
                    ) by {
                        if z != e {
                            if found@.contains(z) && !found0.contains(z) {
                                assert(pending@.contains(z));
                            } else if pending0.contains(z) {
                                let k = choose|k: int| 0 <= k < pending0.len() && pending0[k] == z;
                                assert(pending_mid[k] == z);
                                assert(pending_mid.contains(z));
                            } else {
                                assert(settled(g, room, found0, z));
                                lemma_settled_grows(g, room, found0, found@, z);
                            }
                        }
                    }
                }
            },
        }
        proof {
            lemma_len_subset(found@, Set::<u64>::full());
        }
    }
    proof {
        assert forall|z: u64, a: u64|
            (z == x || found@.contains(z)) && #[trigger] auth_edges(g, z).contains(a)
                implies found@.contains(a) by {
            assert(!pending@.contains(z));
            assert(settled(g, room, found@, z));
        }
        assert forall|y: u64| reaches(g, x, y) implies found@.contains(y) by {
            let p = choose|p: Seq<u64>| #[trigger] is_auth_path(g, p) && p[0] == x && p.last() == y;
            lemma_closed_contains_path(g, x, found@, p, p.len() - 1);
        }
        assert(found_list@.to_set() =~= auth_chain_of(g, x));
        assert forall|y: u64| (y == x || reaches(g, x, y)) && g.contains_key(y) implies g[y].room_id@
            == room by {
            assert(!pending@.contains(y));
            if y != x {
                assert(found@.contains(y));
            }
            assert(settled(g, room, found@, y));
        }
        if foreign_event_in_chain(g, room_id@, set![x]) {
            let y = choose|y: u64| #[trigger] g.contains_key(y) && (set![x].contains(y) || auth_chain_of_set(g, set![x]).contains(y))
                    && g[y].room_id@ != room_id@;
            if y != x {
                assert(auth_chain_of_set(g, set![x]).contains(y));
                let w = choose|w: u64| set![x].contains(w) && #[trigger] reaches(g, w, y);
                assert(w == x);
            }
        }
    }
    Ok(found_list)
}

/// Number of buckets that the starting events are spread over by short id.
pub const NUM_BUCKETS: u64 = 50;

/// The members of `s` that fall into bucket `b` of `k`.
pub open spec fn bucket_of(s: Set<u64>, k: u64, b: u64) -> Set<u64> {
    s.filter(|x: u64| x % k == b)
}

/// The members of `s` that fall into one of the buckets below `b` of `k`.
pub open spec fn buckets_below(s: Set<u64>, k: u64, b: u64) -> Set<u64> {
    s.filter(|x: u64| x % k < b)
}

/// Every two entries of `s` are in strictly increasing order.
pub open spec fn strictly_sorted(s: Seq<u64>) -> bool {
    forall|i: int, j: int| 0 <= i < j < s.len() ==> s[i] < s[j]
}

/// The auth chain of a union is the union of the auth chains.
pub proof fn lemma_auth_chain_of_union(g: Map<u64, AuthEvent>, a: Set<u64>, b: Set<u64>)
    ensures
        auth_chain_of_set(g, a.union(b)) == auth_chain_of_set(g, a).union(auth_chain_of_set(g, b)),
{
    assert forall|y: u64| #[trigger] auth_chain_of_set(g, a.union(b)).contains(y) implies auth_chain_of_set(
        g,
        a,
    ).contains(y) || auth_chain_of_set(g, b).contains(y) by {
        let x = choose|x: u64| a.union(b).contains(x) && #[trigger] reaches(g, x, y);
        if a.contains(x) {
            assert(auth_chain_of_set(g, a).contains(y));
        } else {
            assert(auth_chain_of_set(g, b).contains(y));
        }
    }
    assert forall|y: u64|
        auth_chain_of_set(g, a).contains(y) || auth_chain_of_set(g, b).contains(
            y,
        ) implies #[trigger] auth_chain_of_set(g, a.union(b)).contains(y) by {
        if auth_chain_of_set(g, a).contains(y) {
            let x = choose|x: u64| a.contains(x) && #[trigger] reaches(g, x, y);
            assert(a.union(b).contains(x));
        } else {
            let x = choose|x: u64| b.contains(x) && #[trigger] reaches(g, x, y);
            assert(a.union(b).contains(x));
        }
    }
    assert(auth_chain_of_set(g, a.union(b)) =~= auth_chain_of_set(g, a).union(
        auth_chain_of_set(g, b),
    ));
}

/// The auth chain of a single event, as a set of starting events.
pub proof fn lemma_auth_chain_of_single(g: Map<u64, AuthEvent>, x: u64)
    ensures
        auth_chain_of_set(g, set![x]) == auth_chain_of(g, x),
{
    assert forall|y: u64| #[trigger] auth_chain_of_set(g, set![x]).contains(y) implies auth_chain_of(
        g,
        x,
    ).contains(y) by {
        let w = choose|w: u64| set![x].contains(w) && #[trigger] reaches(g, w, y);
        assert(w == x);
    }
    assert forall|y: u64| #[trigger] auth_chain_of(g, x).contains(y) implies auth_chain_of_set(
        g,
        set![x],
    ).contains(y) by {
        assert(set![x].contains(x));
    }
    assert(auth_chain_of_set(g, set![x]) =~= auth_chain_of(g, x));
}

/// A foreign event met from a subset is also met from the whole set.
proof fn lemma_foreign_grows(g: Map<u64, AuthEvent>, room_id: Seq<char>, s1: Set<u64>, s2: Set<u64>)
    requires
        s1.subset_of(s2),
        foreign_event_in_chain(g, room_id, s1),
    ensures
        foreign_event_in_chain(g, room_id, s2),
{
    let y = choose|y: u64| #[trigger] g.contains_key(y) && (s1.contains(y) || auth_chain_of_set(g, s1).contains(y))
        && g[y].room_id@ != room_id;
    if !s1.contains(y) {
        let x = choose|x: u64| s1.contains(x) && #[trigger] reaches(g, x, y);
        assert(s2.contains(x));
        assert(auth_chain_of_set(g, s2).contains(y));
    }
    lemma_foreign_witness(g, room_id, s2, y);
}

/// Splitting the starting events into `k` buckets by short id and joining the
/// auth chains of the buckets gives the auth chain of all of them, for any
/// number of buckets.
pub proof fn lemma_bucketed_auth_chain(g: Map<u64, AuthEvent>, s: Set<u64>, k: u64)
    requires
        k > 0,
    ensures
        auth_chain_of_set(g, s) == Set::new(
            |y: u64| exists|b: u64| b < k && #[trigger] auth_chain_of_set(g, bucket_of(s, k, b)).contains(y),
        ),
{
    let rhs = Set::new(
        |y: u64| exists|b: u64| b < k && #[trigger] auth_chain_of_set(g, bucket_of(s, k, b)).contains(y),
    );
    assert forall|y: u64| #[trigger] auth_chain_of_set(g, s).contains(y) implies rhs.contains(y) by {
        let x = choose|x: u64| s.contains(x) && #[trigger] reaches(g, x, y);
        let b = x % k;
        assert(bucket_of(s, k, b).contains(x));
        assert(auth_chain_of_set(g, bucket_of(s, k, b)).contains(y));
    }
    assert forall|y: u64| rhs.contains(y) implies #[trigger] auth_chain_of_set(g, s).contains(y) by {
        let b = choose|b: u64| b < k && #[trigger] auth_chain_of_set(g, bucket_of(s, k, b)).contains(y);
        let x = choose|x: u64| bucket_of(s, k, b).contains(x) && #[trigger] reaches(g, x, y);
        assert(s.contains(x));
    }
    assert(auth_chain_of_set(g, s) =~= rhs);
}

/// The members of `s` in part `b`.
pub open spec fn part_of(s: Set<u64>, part: spec_fn(u64) -> nat, b: nat) -> Set<u64> {
    s.filter(|x: u64| part(x) == b)
}

/// For any split of the starting events into `k` parts (`part` names each
/// event's part), joining the auth chains of the parts gives the auth chain
/// of all of them.
pub proof fn lemma_partitioned_auth_chain(
    g: Map<u64, AuthEvent>,
    s: Set<u64>,
    part: spec_fn(u64) -> nat,
    k: nat,
)
    requires
        forall|x: u64| s.contains(x) ==> #[trigger] part(x) < k,
    ensures
        auth_chain_of_set(g, s) == Set::new(
            |y: u64|
                exists|b: nat|
                    b < k && #[trigger] auth_chain_of_set(g, part_of(s, part, b)).contains(y),
        ),
{
    let rhs = Set::new(
        |y: u64|
            exists|b: nat| b < k && #[trigger] auth_chain_of_set(g, part_of(s, part, b)).contains(y),
    );
    assert forall|y: u64| #[trigger] auth_chain_of_set(g, s).contains(y) implies rhs.contains(y) by {
        let x = choose|x: u64| s.contains(x) && #[trigger] reaches(g, x, y);
        let b = part(x);
        assert(part_of(s, part, b).contains(x));
        assert(auth_chain_of_set(g, part_of(s, part, b)).contains(y));
    }
    assert forall|y: u64| rhs.contains(y) implies #[trigger] auth_chain_of_set(g, s).contains(y) by {
        let b = choose|b: nat| b < k && #[trigger] auth_chain_of_set(g, part_of(s, part, b)).contains(y);
        let x = choose|x: u64| part_of(s, part, b).contains(x) && #[trigger] reaches(g, x, y);
        assert(s.contains(x));
    }
    assert(auth_chain_of_set(g, s) =~= rhs);
}

/// The auth chain is closed: the auth chain of events in an auth chain adds
/// nothing to it, and the result depends on the set of starting events alone.
pub proof fn lemma_auth_chain_closed(g: Map<u64, AuthEvent>, s: Set<u64>)
    ensures
        auth_chain_of_set(g, auth_chain_of_set(g, s)).subset_of(auth_chain_of_set(g, s)),
        auth_chain_of_set(g, s.union(auth_chain_of_set(g, s))) == auth_chain_of_set(g, s),
{
    let c = auth_chain_of_set(g, s);
    assert forall|y: u64| #[trigger] auth_chain_of_set(g, c).contains(y) implies c.contains(y) by {
        let m = choose|m: u64| c.contains(m) && #[trigger] reaches(g, m, y);
        let x = choose|x: u64| s.contains(x) && #[trigger] reaches(g, x, m);
        let p = choose|p: Seq<u64>| #[trigger] is_auth_path(g, p) && p[0] == x && p.last() == m;
        let q = choose|q: Seq<u64>| #[trigger] is_auth_path(g, q) && q[0] == m && q.last() == y;
        let r = p + q.drop_first();
        assert forall|i: int| 0 <= i < r.len() - 1 implies #[trigger] auth_edges(g, r[i]).contains(
            r[i + 1],
        ) by {
            if i < p.len() - 1 {
                assert(r[i] == p[i] && r[i + 1] == p[i + 1]);
            } else if i == p.len() - 1 {
                assert(r[i] == m && q[0] == m);
                assert(r[i + 1] == q[1]);
                assert(auth_edges(g, q[0]).contains(q[1]));
            } else {
                let t = i - p.len() + 1;
                assert(r[i] == q[t] && r[i + 1] == q[t + 1]);
            }
        }
        assert(is_auth_path(g, r));
        assert(r[0] == x && r.last() == y);
        assert(reaches(g, x, y));
    }
    lemma_auth_chain_of_union(g, s, c);
}

/// The key under which a bucket's auth chain is kept: its short ids, sorted.
fn insert_sorted(v: &mut Vec<u64>, x: u64)
    requires
        strictly_sorted(old(v)@),
    ensures
        strictly_sorted(final(v)@),
        final(v)@.to_set() == old(v)@.to_set().insert(x),
{
    let mut k: usize = 0;
    while k < v.len() && v[k] < x
        invariant
            0 <= k <= v@.len(),
            forall|i: int| 0 <= i < k ==> v@[i] < x,
        decreases v@.len() - k,
    {
        k += 1;
    }
    if k < v.len() && v[k] == x {
        proof {
            assert(v@.to_set().insert(x) =~= v@.to_set());
        }
        return;
    }
    let ghost before = v@;
    v.insert(k, x);
    proof {
        assert forall|i: int, j: int| 0 <= i < j < v@.len() implies v@[i] < v@[j] by {
            if j < k {
                assert(v@[i] == before[i] && v@[j] == before[j]);
            } else if j == k {
                assert(v@[i] == before[i]);
            } else if i < k {
                assert(v@[i] == before[i] && v@[j] == before[j - 1]);
                if k < before.len() {
                    assert(before[k as int] > x);
                    assert(before[k as int] <= before[j - 1]);
                }
            } else if i == k {
                assert(before[k as int] > x);
                assert(v@[j] == before[j - 1]);
            } else {
                assert(v@[i] == before[i - 1] && v@[j] == before[j - 1]);
            }
        }
        assert forall|y: u64| #[trigger] v@.to_set().contains(y) <==> before.to_set().insert(x).contains(y) by {
            if v@.to_set().contains(y) {
                let i = choose|i: int| 0 <= i < v@.len() && v@[i] == y;
                if i < k {
                    assert(before[i] == y);
                } else if i > k {
                    assert(before[i - 1] == y);
                }
            }
            if before.to_set().contains(y) {
                let i = choose|i: int| 0 <= i < before.len() && before[i] == y;
                if i < k {
                    assert(v@[i] == y);
                } else {
                    assert(v@[i + 1] == y);
                }
            }
            if y == x {
                assert(v@[k as int] == x);
            }
        }
        assert(v@.to_set() =~= before.to_set().insert(x));
    }
}

/// Adds to `acc` the items it does not hold yet; `seen` mirrors `acc` as a set.
fn merge_into(acc: &mut Vec<u64>, seen: &mut HashSet<u64>, items: &Vec<u64>)
    requires
        old(seen)@ == old(acc)@.to_set(),
        old(acc)@.no_duplicates(),
    ensures
        final(seen)@ == final(acc)@.to_set(),
        final(acc)@.no_duplicates(),
        final(acc)@.to_set() == old(acc)@.to_set().union(items@.to_set()),
{
    let ghost start = acc@.to_set();
    let mut i: usize = 0;
    while i < items.len()
        invariant
            0 <= i <= items@.len(),
            seen@ == acc@.to_set(),
            acc@.no_duplicates(),
            acc@.to_set() == start.union(items@.subrange(0, i as int).to_set()),
        decreases items@.len() - i,
    {
        let x = items[i];
        let ghost acc0 = acc@;
        if !seen.contains(&x) {
            seen.insert(x);
            acc.push(x);
            proof {
                acc0.lemma_push_to_set_commute(x);
                assert(acc@.drop_last() =~= acc0);
            }
        }
        proof {
            assert(items@.subrange(0, i + 1) =~= items@.subrange(0, i as int).push(x));
            items@.subrange(0, i as int).lemma_push_to_set_commute(x);
            assert(acc@.to_set() =~= start.union(items@.subrange(0, i + 1).to_set()));
        }
        i += 1;
    }
    proof {
        assert(items@.subrange(0, items@.len() as int) =~= items@);
    }
}

fn same_key(a: &Vec<u64>, b: &Vec<u64>) -> (r: bool)
    ensures
        r == (a@ == b@),
{
    if a.len() != b.len() {
        return false;
    }
    let mut i: usize = 0;
    while i < a.len()
        invariant
            a@.len() == b@.len(),
            0 <= i <= a@.len(),
            forall|j: int| 0 <= j < i ==> a@[j] == b@[j],
        decreases a@.len() - i,
    {
        if a[i] != b[i] {
            return false;
        }
        i += 1;
    }
    proof {
        assert(a@ =~= b@);
    }
    true
}

/// One cached auth chain: the room it was computed for, the short ids of the
/// events it starts from (sorted), and the chain.
pub struct CacheEntry {
    pub room_id: String,
    pub key: Vec<u64>,
    pub chain: Vec<u64>,
}

/// Cached auth chains per room, keyed by a sorted list of short event ids: a
/// whole bucket, or a single event. Entries are written once and never
/// changed or dropped.
pub struct AuthChainCache {
    entries: Vec<CacheEntry>,
}

impl AuthChainCache {
    /// Every entry holds the auth chain of its key in the event store `g`,
    /// and that chain meets no stored event of another room than its own.
    pub closed spec fn wf(&self, g: Map<u64, AuthEvent>) -> bool {
        forall|i: int|
            0 <= i < self.entries@.len() ==> (#[trigger] self.entries@[i]).chain@.to_set()
                == auth_chain_of_set(g, self.entries@[i].key@.to_set()) && !foreign_event_in_chain(
                g,
                self.entries@[i].room_id@,
                self.entries@[i].key@.to_set(),
            )
    }

    /// The cache holds an entry for `key` in room `room_id`.
    pub closed spec fn holds(&self, room_id: Seq<char>, key: Seq<u64>) -> bool {
        exists|i: int|
            0 <= i < self.entries@.len() && (#[trigger] self.entries@[i]).room_id@ == room_id
                && self.entries@[i].key@ == key
    }

    /// Every entry of `earlier` is still here, unchanged.
    pub closed spec fn keeps(&self, earlier: AuthChainCache) -> bool {
        &&& earlier.entries@.len() <= self.entries@.len()
        &&& forall|i: int| 0 <= i < earlier.entries@.len() ==> self.entries@[i] == earlier.entries@[i]
    }

    /// A cache that keeps another holds what that one holds.
    pub proof fn lemma_keeps_holds(&self, earlier: AuthChainCache, room_id: Seq<char>, key: Seq<u64>)
        requires
            self.keeps(earlier),
            earlier.holds(room_id, key),
        ensures
            self.holds(room_id, key),
    {
        let i = choose|i: int|
            0 <= i < earlier.entries@.len() && (#[trigger] earlier.entries@[i]).room_id@ == room_id
                && earlier.entries@[i].key@ == key;
        assert(self.entries@[i] == earlier.entries@[i]);
    }

    /// Keeping entries is transitive, and every cache keeps itself.
    pub proof fn lemma_keeps_trans(&self, mid: AuthChainCache, earlier: AuthChainCache)
        requires
            self.keeps(mid),
            mid.keeps(earlier),
        ensures
            self.keeps(earlier),
            self.keeps(*self),
    {
    }

    /// An empty cache.
    pub fn new() -> (c: AuthChainCache)
        ensures
            forall|g: Map<u64, AuthEvent>| c.wf(g),
            forall|room_id: Seq<char>, key: Seq<u64>| !c.holds(room_id, key),
    {
        AuthChainCache { entries: Vec::new() }
    }

    /// The cached auth chain of the events in `key` for room `room_id`, if
    /// there is one.
    fn get_auth_chain_from_cache(
        &self,
        room_id: &String,
        key: &Vec<u64>,
        Ghost(g): Ghost<Map<u64, AuthEvent>>,
    ) -> (r: Option<Vec<u64>>)
        requires
            self.wf(g),
        ensures
            r matches Some(v) ==> v@.to_set() == auth_chain_of_set(g, key@.to_set())
                && !foreign_event_in_chain(g, room_id@, key@.to_set()) && self.holds(room_id@, key@),
            r is None ==> !self.holds(room_id@, key@),
    {
        let mut i: usize = 0;
        while i < self.entries.len()
            invariant
                0 <= i <= self.entries@.len(),
                self.wf(g),
                forall|j: int|
                    0 <= j < i ==> !((#[trigger] self.entries@[j]).room_id@ == room_id@
                        && self.entries@[j].key@ == key@),
            decreases self.entries@.len() - i,
        {
            if self.entries[i].room_id == *room_id && same_key(&self.entries[i].key, key) {
                let v = self.entries[i].chain.clone();
                proof {
                    assert(v@ == self.entries@[i as int].chain@);
                    assert(self.holds(room_id@, key@));
                }
                return Some(v);
            }
            i += 1;
        }
        None
    }

    /// Records `chain` as the auth chain of the events in `key` for room `room_id`.
    fn cache_auth_chain(
        &mut self,
        room_id: &String,
        key: Vec<u64>,
        chain: Vec<u64>,
        Ghost(g): Ghost<Map<u64, AuthEvent>>,
    )
        requires
            old(self).wf(g),
            chain@.to_set() == auth_chain_of_set(g, key@.to_set()),
            !foreign_event_in_chain(g, room_id@, key@.to_set()),
        ensures
            final(self).wf(g),
            final(self).keeps(*old(self)),
            final(self).holds(room_id@, key@),
            forall|r2: Seq<char>, k2: Seq<u64>|
                #[trigger] final(self).holds(r2, k2) ==> old(self).holds(r2, k2) || (r2 == room_id@ && k2 == key@),
    {
        let ghost k = key@;
        self.entries.push(CacheEntry { room_id: room_id.clone(), key, chain });
        proof {
            assert forall|i: int| 0 <= i < self.entries@.len() implies (#[trigger] self.entries@[i]).chain@.to_set()
                == auth_chain_of_set(g, self.entries@[i].key@.to_set()) && !foreign_event_in_chain(
                g,
                self.entries@[i].room_id@,
                self.entries@[i].key@.to_set(),
            ) by {
                if i < self.entries@.len() - 1 {
                    assert(self.entries@[i] == old(self).entries@[i]);
                }
            }
            let last = self.entries@.len() - 1;
            assert(self.entries@[last].room_id@ == room_id@ && self.entries@[last].key@ == k);
            assert forall|r2: Seq<char>, k2: Seq<u64>|
                #[trigger] self.holds(r2, k2) implies old(self).holds(r2, k2) || (r2 == room_id@ && k2 == k) by {
                let i = choose|i: int|
                    0 <= i < self.entries@.len() && (#[trigger] self.entries@[i]).room_id@ == r2
                        && self.entries@[i].key@ == k2;
                if i < last {
                    assert(old(self).entries@[i] == self.entries@[i]);
                }
            }
        }
    }
}

/// Bucket `b` of the starting events `s` is cached for room `room_id` under
/// its sorted key.
pub open spec fn bucket_cached(c: AuthChainCache, room_id: Seq<char>, s: Set<u64>, b: u64) -> bool {
    exists|k: Seq<u64>|
        #[trigger] c.holds(room_id, k) && strictly_sorted(k) && k.to_set() == bucket_of(s, NUM_BUCKETS, b)
}

/// The starting events of bucket `b`, as the sorted key of that bucket.
fn bucket_key(starting_events: &Vec<u64>, b: u64) -> (key: Vec<u64>)
    requires
        b < NUM_BUCKETS,
    ensures
        strictly_sorted(key@),
        key@.to_set() == bucket_of(starting_events@.to_set(), NUM_BUCKETS, b),
{
    let mut key: Vec<u64> = Vec::new();
    let mut i: usize = 0;
    while i < starting_events.len()
        invariant
            0 <= i <= starting_events@.len(),
            strictly_sorted(key@),
            key@.to_set() == bucket_of(starting_events@.subrange(0, i as int).to_set(), NUM_BUCKETS, b),
        decreases starting_events@.len() - i,
    {
        let s = starting_events[i];
        let ghost before = key@.to_set();
        if s % NUM_BUCKETS == b {
            insert_sorted(&mut key, s);
        }
        proof {
            assert(starting_events@.subrange(0, i + 1) =~= starting_events@.subrange(0, i as int).push(s));
            starting_events@.subrange(0, i as int).lemma_push_to_set_commute(s);
            assert(key@.to_set() =~= bucket_of(starting_events@.subrange(0, i + 1).to_set(), NUM_BUCKETS, b));
        }
        i += 1;
    }
    proof {
        assert(starting_events@.subrange(0, starting_events@.len() as int) =~= starting_events@);
    }
    key
}

/// Computes the auth chain of one bucket, from the cache where it can, and
/// caches what it computes: the chain of each walked event, then the bucket's.
fn bucket_auth_chain(
    store: &EventStore,
    cache: &mut AuthChainCache,
    room_id: &String,
    key: &Vec<u64>,
) -> (r: Result<Vec<u64>, Error>)
    requires
        old(cache).wf(store@),
    ensures
        final(cache).wf(store@),
        final(cache).keeps(*old(cache)),
        r is Ok <==> !foreign_event_in_chain(store@, room_id@, key@.to_set()),
        r matches Ok(v) ==> v@.no_duplicates() && v@.to_set() == auth_chain_of_set(store@, key@.to_set())
            && final(cache).holds(room_id@, key@) && (old(cache).holds(room_id@, key@) || forall|x: u64|
            key@.contains(x) ==> #[trigger] final(cache).holds(room_id@, seq![x])),
        r matches Err(e) ==> is_evil_event_error(e),
        forall|k: Seq<u64>|
            #[trigger] final(cache).holds(room_id@, k) && !old(cache).holds(room_id@, k) ==> k == key@ || (
            k.len() == 1 && key@.contains(k[0])),
{
    let ghost g = store@;
    let ghost c0 = *cache;
    match cache.get_auth_chain_from_cache(room_id, key, Ghost(g)) {
        Some(cached) => {
            let mut chain: Vec<u64> = Vec::new();
            let mut seen: HashSet<u64> = HashSet::new();
            proof {
                assert(chain@.to_set() =~= Set::empty());
            }
            merge_into(&mut chain, &mut seen, &cached);
            proof {
                assert(chain@.to_set() =~= cached@.to_set());
            }
            return Ok(chain);
        },
        None => {},
    }
    let mut chunk: Vec<u64> = Vec::new();
    let mut seen: HashSet<u64> = HashSet::new();
    proof {
        assert(chunk@.to_set() =~= Set::empty());
        assert(key@.subrange(0, 0).to_set() =~= Set::empty());
        assert(auth_chain_of_set(g, Set::empty()) =~= Set::empty());
    }
    let mut i: usize = 0;
    while i < key.len()
        invariant
            g == store@,
            0 <= i <= key@.len(),
            cache.wf(g),
            cache.keeps(c0),
            c0 == *old(cache),
            seen@ == chunk@.to_set(),
            chunk@.no_duplicates(),
            chunk@.to_set() == auth_chain_of_set(g, key@.subrange(0, i as int).to_set()),
            forall|j: int| 0 <= j < i ==> !foreign_event_in_chain(g, room_id@, set![#[trigger] key@[j]]),
            forall|j: int| 0 <= j < i ==> cache.holds(room_id@, seq![#[trigger] key@[j]]),
            forall|k: Seq<u64>|
                #[trigger] cache.holds(room_id@, k) && !c0.holds(room_id@, k) ==> k.len() == 1 && key@.contains(k[0]),
        decreases key@.len() - i,
    {
        let sevent_id = key[i];
        let single: Vec<u64> = vec![sevent_id];
        let ghost c1 = *cache;
        proof {
            assert(single@ =~= seq![sevent_id]);
            assert(single@.to_set() =~= set![sevent_id]);
            lemma_auth_chain_of_single(g, sevent_id);
            assert(key@.subrange(0, i + 1) =~= key@.subrange(0, i as int).push(sevent_id));
            key@.subrange(0, i as int).lemma_push_to_set_commute(sevent_id);
            assert(key@.subrange(0, i + 1).to_set() =~= key@.subrange(0, i as int).to_set().union(set![sevent_id]));
            lemma_auth_chain_of_union(g, key@.subrange(0, i as int).to_set(), set![sevent_id]);
        }
        match cache.get_auth_chain_from_cache(room_id, &single, Ghost(g)) {
            Some(cached) => {
                merge_into(&mut chunk, &mut seen, &cached);
            },
            None => {
                let walked = get_auth_chain_inner(store, room_id, sevent_id);
                match walked {
                    Err(e) => {
                        proof {
                            assert(set![sevent_id].subset_of(key@.to_set())) by {
                                assert(key@[i as int] == sevent_id);
                            }
                            lemma_foreign_grows(g, room_id@, set![sevent_id], key@.to_set());
                            cache.lemma_keeps_trans(c1, c0);
                        }
                        return Err(e);
                    },
                    Ok(chain) => {
                        cache.cache_auth_chain(room_id, single, chain.clone(), Ghost(g));
                        merge_into(&mut chunk, &mut seen, &chain);
                    },
                }
            },
        }
        proof {
            cache.lemma_keeps_trans(c1, c0);
            assert forall|k: Seq<u64>|
                #[trigger] cache.holds(room_id@, k) && !c0.holds(room_id@, k) implies k.len() == 1 && key@.contains(k[0]) by {
                if !c1.holds(room_id@, k) {
                    assert(k == seq![sevent_id]);
                    assert(key@[i as int] == sevent_id);
                }
            }
            assert forall|j: int| 0 <= j < i + 1 implies cache.holds(room_id@, seq![#[trigger] key@[j]]) by {
                if j < i {
                    cache.lemma_keeps_holds(c1, room_id@, seq![key@[j]]);
                }
            }
        }
        i += 1;
    }
    proof {
        assert(key@.subrange(0, key@.len() as int) =~= key@);
        if foreign_event_in_chain(g, room_id@, key@.to_set()) {
            let x = lemma_foreign_from_member(g, room_id@, key@.to_set());
            let j = choose|j: int| 0 <= j < key@.len() && key@[j] == x;
            assert(!foreign_event_in_chain(g, room_id@, set![key@[j]]));
        }
    }
    let ghost c2 = *cache;
    cache.cache_auth_chain(room_id, key.clone(), chunk.clone(), Ghost(g));
    proof {
        cache.lemma_keeps_trans(c2, c0);
        assert forall|k: Seq<u64>|
            #[trigger] cache.holds(room_id@, k) && !c0.holds(room_id@, k) implies k == key@ || (k.len() == 1
                && key@.contains(k[0])) by {
            if k != key@ {
                assert(c2.holds(room_id@, k));
            }
        }
        assert forall|x: u64| key@.contains(x) implies #[trigger] cache.holds(room_id@, seq![x]) by {
            let j = choose|j: int| 0 <= j < key@.len() && key@[j] == x;
            cache.lemma_keeps_holds(c2, room_id@, seq![key@[j]]);
        }
    }
    Ok(chunk)
}

/// Returns the auth chain of `starting_events` in room `room_id`: the short
/// ids of every event reached from them over auth edges. The events are
/// spread over `NUM_BUCKETS` buckets by short id; each bucket, and each event
/// in it, is looked up in `cache` before its chain is walked, and what is
/// walked is cached. Fails with `Forbidden` exactly when the chain meets a
/// stored event of another room; the answer does not depend on what the
/// cache held.
pub fn get_auth_chain(
    store: &EventStore,
    cache: &mut AuthChainCache,
    room_id: &String,
    starting_events: &Vec<u64>,
) -> (r: Result<Vec<u64>, Error>)
    requires
        old(cache).wf(store@),
    ensures
        final(cache).wf(store@),
        final(cache).keeps(*old(cache)),
        r is Ok <==> !foreign_event_in_chain(store@, room_id@, starting_events@.to_set()),
        r matches Ok(v) ==> v@.no_duplicates() && v@.to_set() == auth_chain_of_set(
            store@,
            starting_events@.to_set(),
        ),
        r matches Err(e) ==> is_evil_event_error(e),
        r is Ok ==> forall|b: u64|
            b < NUM_BUCKETS && bucket_of(starting_events@.to_set(), NUM_BUCKETS, b) != Set::<u64>::empty()
                ==> #[trigger] bucket_cached(*final(cache), room_id@, starting_events@.to_set(), b),
        r is Ok ==> forall|x: u64|
            starting_events@.contains(x) ==> #[trigger] final(cache).holds(room_id@, seq![x])
                || bucket_cached(*old(cache), room_id@, starting_events@.to_set(), x % NUM_BUCKETS),
{
    let ghost g = store@;
    let ghost s = starting_events@.to_set();
    let ghost c0 = *cache;
    let mut full: Vec<u64> = Vec::new();
    let mut seen: HashSet<u64> = HashSet::new();
    proof {
        assert(full@.to_set() =~= Set::empty());
        assert(buckets_below(s, NUM_BUCKETS, 0) =~= Set::empty());
        assert(auth_chain_of_set(g, Set::empty()) =~= Set::empty());
    }
    let mut b: u64 = 0;
    while b < NUM_BUCKETS
        invariant
            g == store@,
            s == starting_events@.to_set(),
            0 <= b <= NUM_BUCKETS,
            cache.wf(g),
            cache.keeps(c0),
            c0 == *old(cache),
            seen@ == full@.to_set(),
            full@.no_duplicates(),
            full@.to_set() == auth_chain_of_set(g, buckets_below(s, NUM_BUCKETS, b)),
            !foreign_event_in_chain(g, room_id@, buckets_below(s, NUM_BUCKETS, b)),
            forall|b2: u64|
                b2 < b && bucket_of(s, NUM_BUCKETS, b2) != Set::<u64>::empty() ==> #[trigger] bucket_cached(
                    *cache,
                    room_id@,
                    s,
                    b2,
                ),
            forall|x: u64|
                s.contains(x) && x % NUM_BUCKETS < b ==> #[trigger] cache.holds(room_id@, seq![x])
                    || bucket_cached(c0, room_id@, s, x % NUM_BUCKETS),
            forall|k: Seq<u64>|
                #[trigger] cache.holds(room_id@, k) && !c0.holds(room_id@, k) ==> (k.len() == 1 && s.contains(k[0])
                    && k[0] % NUM_BUCKETS < b) || (strictly_sorted(k) && exists|b2: u64|
                    b2 < b && k.to_set() == #[trigger] bucket_of(s, NUM_BUCKETS, b2)),
        decreases NUM_BUCKETS - b,
    {
        let key = bucket_key(starting_events, b);
        let ghost c1 = *cache;
        proof {
            assert(buckets_below(s, NUM_BUCKETS, (b + 1) as u64) =~= buckets_below(s, NUM_BUCKETS, b).union(
                bucket_of(s, NUM_BUCKETS, b),
            ));
            lemma_auth_chain_of_union(g, buckets_below(s, NUM_BUCKETS, b), bucket_of(s, NUM_BUCKETS, b));
        }
        if key.len() > 0 {
            match bucket_auth_chain(store, cache, room_id, &key) {
                Err(e) => {
                    proof {
                        lemma_foreign_grows(g, room_id@, key@.to_set(), s);
                        cache.lemma_keeps_trans(c1, c0);
                    }
                    return Err(e);
                },
                Ok(chunk) => {
                    merge_into(&mut full, &mut seen, &chunk);
                    proof {
                        cache.lemma_keeps_trans(c1, c0);
                        assert(bucket_cached(*cache, room_id@, s, b));
                        assert forall|b2: u64|
                            b2 < b + 1 && bucket_of(s, NUM_BUCKETS, b2) != Set::<u64>::empty() implies #[trigger] bucket_cached(
                                *cache,
                                room_id@,
                                s,
                                b2,
                            ) by {
                            if b2 < b {
                                assert(bucket_cached(c1, room_id@, s, b2));
                                let k = choose|k: Seq<u64>|
                                    #[trigger] c1.holds(room_id@, k) && strictly_sorted(k) && k.to_set()
                                        == bucket_of(s, NUM_BUCKETS, b2);
                                cache.lemma_keeps_holds(c1, room_id@, k);
                            }
                        }
                        assert forall|x: u64|
                            s.contains(x) && x % NUM_BUCKETS < b + 1 implies #[trigger] cache.holds(room_id@, seq![x])
                                || bucket_cached(c0, room_id@, s, x % NUM_BUCKETS) by {
                            if x % NUM_BUCKETS < b {
                                if c1.holds(room_id@, seq![x]) {
                                    cache.lemma_keeps_holds(c1, room_id@, seq![x]);
                                }
                            } else {
                                assert(key@.to_set().contains(x));
                                assert(key@.contains(x));
                                if c0.holds(room_id@, key@) {
                                    assert(bucket_cached(c0, room_id@, s, b));
                                }
                                if c1.holds(room_id@, key@) && !c0.holds(room_id@, key@) {
                                    assert(key@.to_set().contains(x));
                                    if key@.len() == 1 {
                                        assert(key@[0] == x);
                                    } else {
                                        let b2 = choose|b2: u64|
                                            b2 < b && key@.to_set() == #[trigger] bucket_of(s, NUM_BUCKETS, b2);
                                        assert(bucket_of(s, NUM_BUCKETS, b2).contains(x));
                                    }
                                }
                            }
                        }
                        assert forall|k: Seq<u64>|
                            #[trigger] cache.holds(room_id@, k) && !c0.holds(room_id@, k) implies (k.len() == 1
                                && s.contains(k[0]) && k[0] % NUM_BUCKETS < b + 1) || (strictly_sorted(k) && exists|b2: u64|
                                b2 < b + 1 && k.to_set() == #[trigger] bucket_of(s, NUM_BUCKETS, b2)) by {
                            if c1.holds(room_id@, k) {
                                if k.len() == 1 && s.contains(k[0]) && k[0] % NUM_BUCKETS < b {
                                } else {
                                    let b2 = choose|b2: u64|
                                        b2 < b && k.to_set() == #[trigger] bucket_of(s, NUM_BUCKETS, b2);
                                    assert(b2 < b + 1);
                                }
                            } else if k == key@ {
                                assert(key@.to_set() == bucket_of(s, NUM_BUCKETS, b));
                            } else {
                                assert(key@.contains(k[0]));
                                assert(key@.to_set().contains(k[0]));
                            }
                        }
                        if foreign_event_in_chain(g, room_id@, buckets_below(s, NUM_BUCKETS, (b + 1) as u64)) {
                            let x = lemma_foreign_from_member(g, room_id@, buckets_below(s, NUM_BUCKETS, (b + 1) as u64));
                            if x % NUM_BUCKETS < b {
                                assert(buckets_below(s, NUM_BUCKETS, b).contains(x));
                                lemma_foreign_grows(g, room_id@, set![x], buckets_below(s, NUM_BUCKETS, b));
                            } else {
                                assert(key@.to_set().contains(x));
                                lemma_foreign_grows(g, room_id@, set![x], key@.to_set());
                            }
                        }
                    }
                },
            }
        } else {
            proof {
                assert(key@.to_set() =~= Set::empty());
                assert(bucket_of(s, NUM_BUCKETS, b) =~= Set::<u64>::empty());
                assert(auth_chain_of_set(g, Set::empty()) =~= Set::empty());
                assert(full@.to_set().union(Set::empty()) =~= full@.to_set());
                assert(buckets_below(s, NUM_BUCKETS, (b + 1) as u64) =~= buckets_below(s, NUM_BUCKETS, b));
                assert forall|x: u64| s.contains(x) implies x % NUM_BUCKETS != b by {
                    if x % NUM_BUCKETS == b {
                        assert(bucket_of(s, NUM_BUCKETS, b).contains(x));
                    }
                }
            }
        }
        b += 1;
    }
    proof {
        assert(buckets_below(s, NUM_BUCKETS, NUM_BUCKETS) =~= s);
    }
    Ok(full)
}

} // verus!
