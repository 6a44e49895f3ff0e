use vstd::prelude::*;

use crate::acl::{acl_check, acl_permits, is_valid_room_id, opt_view, room_id_valid};
use crate::text::{chars_of, push_str, string_of};

verus! {

/// What to do next with one PDU of an inbound transaction.
#[derive(Debug, PartialEq)]
pub enum PduStep {
    /// The PDU fails; the reason is reported for its event id.
    Fail(String),
    /// The PDU may be admitted into the room with this id.
    Admit(String),
}

/// The reason reported for a PDU without a valid room id.
pub open spec fn missing_room_reason() -> Seq<char> {
    "Event needs a valid RoomId."@
}

/// The reason reported for a PDU whose sender the room's ACL keeps out.
pub open spec fn acl_denied_reason() -> Seq<char> {
    "Server was denied by ACL"@
}

/// Decides on one PDU of a transaction from `sender`, given its `room_id`
/// field (if it is a string) and the content of that room's ACL event (if
/// any): it fails without a valid room id, or when the ACL keeps the sender
/// out; otherwise it may be admitted into that room.
pub fn pdu_step(sender: &str, room_id_field: Option<String>, acl_event_content: &Option<String>) -> (r:
    PduStep)
    ensures
        match room_id_field {
            None => r matches PduStep::Fail(m) && m@ == missing_room_reason(),
            Some(room) => if !room_id_valid(room@) {
                r matches PduStep::Fail(m) && m@ == missing_room_reason()
            } else if !acl_permits(opt_view(*acl_event_content), sender@) {
                r matches PduStep::Fail(m) && m@ == acl_denied_reason()
            } else {
                r matches PduStep::Admit(id) && id@ == room@
            },
        },
{
    proof {
        reveal_strlit("Event needs a valid RoomId.");
        reveal_strlit("Server was denied by ACL");
    }
    let room = match room_id_field {
        None => {
            return PduStep::Fail("Event needs a valid RoomId.".to_owned());
        },
        Some(room) => room,
    };
    if !is_valid_room_id(room.as_str()) {
        return PduStep::Fail("Event needs a valid RoomId.".to_owned());
    }
    match acl_check(sender, acl_event_content) {
        Err(_) => PduStep::Fail("Server was denied by ACL".to_owned()),
        Ok(()) => PduStep::Admit(room),
    }
}

/// One PDU of a transaction as it came out of processing: not readable as
/// canonical JSON (it has no event id then), or its event id and its outcome
/// (the failure reason on failure).
pub enum PduOutcome {
    Unreadable,
    Processed { event_id: String, outcome: Result<(), String> },
}

/// What a PDU's outcome reports: nothing on success, the reason on failure.
pub open spec fn outcome_view(outcome: Result<(), String>) -> Option<Seq<char>> {
    match outcome {
        Ok(()) => None,
        Err(m) => Some(m@),
    }
}

/// The per-PDU results of a transaction, by event id: each processed PDU's
/// outcome (a later PDU with the same event id replaces an earlier one);
/// unreadable PDUs have no event id to report under.
pub open spec fn results_of(outcomes: Seq<PduOutcome>) -> Map<Seq<char>, Option<Seq<char>>>
    decreases outcomes.len(),
{
    if outcomes.len() == 0 {
        Map::empty()
    } else {
        let rest = results_of(outcomes.drop_last());
        match outcomes.last() {
            PduOutcome::Unreadable => rest,
            PduOutcome::Processed { event_id, outcome } => rest.insert(event_id@, outcome_view(outcome)),
        }
    }
}

/// A list of results read as a map from event id to reported reason.
pub open spec fn entries_map(r: Seq<(String, Option<String>)>) -> Map<Seq<char>, Option<Seq<char>>>
    decreases r.len(),
{
    if r.len() == 0 {
        Map::empty()
    } else {
        entries_map(r.drop_last()).insert(r.last().0@, opt_view(r.last().1))
    }
}

/// No two entries of `r` share an event id.
pub open spec fn distinct_ids(r: Seq<(String, Option<String>)>) -> bool {
    forall|i: int, j: int| 0 <= i < j < r.len() ==> (#[trigger] r[i]).0@ != (#[trigger] r[j]).0@
}

fn copy_string(s: &String) -> (r: String)
    ensures
        r@ == s@,
{
    let mut r = String::new();
    push_str(&mut r, s.as_str());
    r
}

proof fn lemma_entries_map_update(r: Seq<(String, Option<String>)>, j: int, x: (String, Option<String>))
    requires
        distinct_ids(r),
        0 <= j < r.len(),
        r[j].0@ == x.0@,
    ensures
        entries_map(r.update(j, x)) == entries_map(r).insert(x.0@, opt_view(x.1)),
        distinct_ids(r.update(j, x)),
    decreases r.len(),
{
    let u = r.update(j, x);
    assert forall|a: int, b: int| 0 <= a < b < u.len() implies (#[trigger] u[a]).0@ != (#[trigger] u[b]).0@ by {
        assert(r[a].0@ != r[b].0@);
    }
    if j == r.len() - 1 {
        assert(u.drop_last() =~= r.drop_last());
        assert(entries_map(u) =~= entries_map(r).insert(x.0@, opt_view(x.1)));
    } else {
        let p = r.drop_last();
        assert(u.drop_last() =~= p.update(j, x));
        assert(u.last() == r.last());
        assert(distinct_ids(p)) by {
            assert forall|a: int, b: int| 0 <= a < b < p.len() implies (#[trigger] p[a]).0@ != (#[trigger] p[b]).0@ by {
                assert(p[a] == r[a] && p[b] == r[b]);
            }
        }
        lemma_entries_map_update(p, j, x);
        assert(r.last().0@ != x.0@) by {
            assert(r[j].0@ != r[r.len() - 1].0@);
        }
        assert(entries_map(u) =~= entries_map(r).insert(x.0@, opt_view(x.1)));
    }
}

/// Collects the response of a transaction: for each event id of a processed
/// PDU, no reason on success or the reason of its failure; every PDU after a
/// failed one is still reported, and each event id is reported once.
pub fn transaction_results(outcomes: &Vec<PduOutcome>) -> (r: Vec<(String, Option<String>)>)
    ensures
        distinct_ids(r@),
        entries_map(r@) == results_of(outcomes@),
{
    let mut r: Vec<(String, Option<String>)> = Vec::new();
    let mut i: usize = 0;
    while i < outcomes.len()
        invariant
            0 <= i <= outcomes@.len(),
            distinct_ids(r@),
            entries_map(r@) == results_of(outcomes@.subrange(0, i as int)),
        decreases outcomes@.len() - i,
    {
        let ghost before = r@;
        proof {
            assert(outcomes@.subrange(0, i + 1).drop_last() =~= outcomes@.subrange(0, i as int));
        }
        match &outcomes[i] {
            PduOutcome::Unreadable => {},
            PduOutcome::Processed { event_id, outcome } => {
                let reason = match outcome {
                    Ok(()) => None,
                    Err(m) => Some(copy_string(m)),
                };
                let entry = (copy_string(event_id), reason);
                let mut j: usize = 0;
                while j < r.len() && r[j].0 != *event_id
                    invariant
                        0 <= j <= r@.len(),
                        r@ == before,
                        forall|m: int| 0 <= m < j ==> (#[trigger] r@[m]).0@ != event_id@,
                    decreases r@.len() - j,
                {
                    j += 1;
                }
                if j < r.len() {
                    r.set(j, entry);
                    proof {
                        lemma_entries_map_update(before, j as int, entry);
                    }
                } else {
                    r.push(entry);
                    proof {
                        assert(r@.drop_last() =~= before);
                        assert forall|a: int, b: int| 0 <= a < b < r@.len() implies (#[trigger] r@[a]).0@
                            != (#[trigger] r@[b]).0@ by {
                            if b == r@.len() - 1 {
                                assert(r@[a] == before[a]);
                            } else {
                                assert(r@[a] == before[a] && r@[b] == before[b]);
                            }
                        }
                    }
                }
            },
        }
        i += 1;
    }
    proof {
        assert(outcomes@.subrange(0, outcomes@.len() as int) =~= outcomes@);
    }
    r
}

/// A transaction never aborts on a bad PDU: a processed PDU whose event id
/// no later PDU repeats is reported with its own outcome, whatever the other
/// PDUs came to.
pub proof fn lemma_results_isolated(outcomes: Seq<PduOutcome>, k: int)
    requires
        0 <= k < outcomes.len(),
        outcomes[k] is Processed,
        forall|m: int|
            k < m < outcomes.len() && (#[trigger] outcomes[m]) is Processed ==> outcomes[m]->Processed_event_id@
                != outcomes[k]->Processed_event_id@,
    ensures
        results_of(outcomes).contains_key(outcomes[k]->Processed_event_id@),
        results_of(outcomes)[outcomes[k]->Processed_event_id@] == outcome_view(
            outcomes[k]->Processed_outcome,
        ),
    decreases outcomes.len(),
{
    if k < outcomes.len() - 1 {
        let p = outcomes.drop_last();
        assert(p[k] == outcomes[k]);
        assert forall|m: int| k < m < p.len() && (#[trigger] p[m]) is Processed implies p[m]->Processed_event_id@
            != p[k]->Processed_event_id@ by {
            assert(p[m] == outcomes[m]);
        }
        lemma_results_isolated(p, k);
        let last = outcomes.len() - 1;
        assert(outcomes.last() == outcomes[last]);
    }
}

/// Picks the receipt's event among the listed ones: the one with the highest
/// known position (`counts[i]` is the position of the i-th listed event, if
/// it is known here); of equal positions the last listed. `None` when none
/// is known.
pub fn pick_receipt_event(counts: &Vec<Option<u64>>) -> (r: Option<usize>)
    ensures
        r is None <==> forall|i: int| 0 <= i < counts@.len() ==> counts@[i] is None,
        r matches Some(k) ==> k < counts@.len() && counts@[k as int] is Some && (forall|i: int|
            0 <= i < counts@.len() && #[trigger] counts@[i] is Some ==> counts@[i]->0 <= counts@[k as int]->0)
            && (forall|i: int|
            k < i < counts@.len() && #[trigger] counts@[i] is Some ==> counts@[i]->0 < counts@[k as int]->0),
{
    let mut best: Option<usize> = None;
    let mut i: usize = 0;
    while i < counts.len()
        invariant
            0 <= i <= counts@.len(),
            best is None <==> forall|j: int| 0 <= j < i ==> counts@[j] is None,
            best matches Some(k) ==> k < i && counts@[k as int] is Some && (forall|j: int|
                0 <= j < i && #[trigger] counts@[j] is Some ==> counts@[j]->0 <= counts@[k as int]->0)
                && (forall|j: int|
                k < j < i && #[trigger] counts@[j] is Some ==> counts@[j]->0 < counts@[k as int]->0),
        decreases counts@.len() - i,
    {
        match counts[i] {
            None => {},
            Some(c) => {
                match best {
                    None => {
                        best = Some(i);
                    },
                    Some(k) => {
                        if c >= counts[k].unwrap() {
                            best = Some(i);
                        }
                    },
                }
            },
        }
        i += 1;
    }
    best
}

/// What a typing notification does.
#[derive(Debug, PartialEq)]
pub enum TypingAction {
    /// Nothing: the user is not in the room.
    Ignore,
    /// Mark the user as typing until this time, in milliseconds.
    Add { until_ms: u64 },
    /// Mark the user as no longer typing.
    Remove,
}

/// How long a typing notification stays visible, in milliseconds.
pub const TYPING_TIMEOUT_MS: u64 = 3000;

/// Decides on a typing notification at time `now_ms`: only a user who is in
/// the room is marked, as typing for the next three seconds, or as no
/// longer typing.
pub fn typing_action(user_in_room: bool, typing: bool, now_ms: u64) -> (r: TypingAction)
    ensures
        !user_in_room ==> r is Ignore,
        user_in_room && typing ==> r == (TypingAction::Add {
            until_ms: if now_ms <= u64::MAX - TYPING_TIMEOUT_MS {
                (now_ms + TYPING_TIMEOUT_MS) as u64
            } else {
                u64::MAX
            },
        }),
        user_in_room && !typing ==> r is Remove,
{
    if !user_in_room {
        TypingAction::Ignore
    } else if typing {
        let until_ms = if now_ms <= u64::MAX - TYPING_TIMEOUT_MS {
            now_ms + TYPING_TIMEOUT_MS
        } else {
            u64::MAX
        };
        TypingAction::Add { until_ms }
    } else {
        TypingAction::Remove
    }
}

/// The server part of a user id `@local:server`: what follows its first colon.
pub open spec fn user_server_part(user_id: Seq<char>) -> Option<Seq<char>> {
    if exists|k: int| 0 <= k < user_id.len() && user_id[k] == ':' {
        let k = choose|k: int|
            0 <= k < user_id.len() && user_id[k] == ':' && forall|j: int| 0 <= j < k ==> user_id[j] != ':';
        Some(user_id.subrange(k + 1, user_id.len() as int))
    } else {
        None
    }
}

/// Whether a cross-signing key update is applied: only when the user
/// belongs to the server that sent it.
pub fn signing_key_update_applies(user_id: &str, sender: &str) -> (r: bool)
    ensures
        r == (user_server_part(user_id@) == Some(sender@)),
{
    let cs = chars_of(user_id);
    let mut k: usize = 0;
    while k < cs.len() && cs[k] != ':'
        invariant
            0 <= k <= cs@.len(),
            forall|j: int| 0 <= j < k ==> cs@[j] != ':',
        decreases cs@.len() - k,
    {
        k += 1;
    }
    if k == cs.len() {
        return false;
    }
    proof {
        let k2 = choose|k2: int|
            0 <= k2 < cs@.len() && cs@[k2] == ':' && forall|j: int| 0 <= j < k2 ==> cs@[j] != ':';
        if k2 < k {
            assert(cs@[k2] != ':');
        }
        if k < k2 {
            assert(cs@[k as int] != ':');
        }
    }
    let server = string_of(&cs, k + 1, cs.len());
    let mut own = String::new();
    push_str(&mut own, sender);
    server == own
}

/// A to-device message target: a user and one of their devices, or all of them.
#[derive(Debug, PartialEq)]
pub struct ToDeviceTarget {
    pub user_id: String,
    pub device_id: Option<String>,
}

/// The (sender, message id) pairs of to-device messages already handled.
pub struct TxnIdLedger {
    seen: Vec<(String, String)>,
}

impl TxnIdLedger {
    /// The pairs recorded.
    pub closed spec fn view(&self) -> Set<(Seq<char>, Seq<char>)> {
        Set::new(
            |p: (Seq<char>, Seq<char>)|
                exists|i: int|
                    0 <= i < self.seen@.len() && (#[trigger] self.seen@[i]).0@ == p.0 && self.seen@[i].1@
                        == p.1,
        )
    }

    /// An empty ledger.
    pub fn new() -> (l: TxnIdLedger)
        ensures
            l.view() == Set::<(Seq<char>, Seq<char>)>::empty(),
    {
        let l = TxnIdLedger { seen: Vec::new() };
        proof {
            assert(l.view() =~= Set::<(Seq<char>, Seq<char>)>::empty());
        }
        l
    }

    /// Whether the message `message_id` from `sender` was handled already.
    pub fn existing_txnid(&self, sender: &String, message_id: &String) -> (r: bool)
        ensures
            r == self.view().contains((sender@, message_id@)),
    {
        let mut i: usize = 0;
        while i < self.seen.len()
            invariant
                0 <= i <= self.seen@.len(),
                forall|j: int|
                    0 <= j < i ==> !((#[trigger] self.seen@[j]).0@ == sender@ && self.seen@[j].1@
                        == message_id@),
            decreases self.seen@.len() - i,
        {
            if self.seen[i].0 == *sender && self.seen[i].1 == *message_id {
                proof {
                    assert(self.view().contains((sender@, message_id@)));
                }
                return true;
            }
            i += 1;
        }
        false
    }

    /// Records the message `message_id` from `sender` as handled.
    pub fn add_txnid(&mut self, sender: &String, message_id: &String)
        ensures
            final(self).view() == old(self).view().insert((sender@, message_id@)),
    {
        self.seen.push((copy_string(sender), copy_string(message_id)));
        proof {
            let p = (sender@, message_id@);
            assert forall|q: (Seq<char>, Seq<char>)|
                #[trigger] self.view().contains(q) == old(self).view().insert(p).contains(q) by {
                if old(self).view().contains(q) {
                    let i = choose|i: int|
                        0 <= i < old(self).seen@.len() && (#[trigger] old(self).seen@[i]).0@ == q.0
                            && old(self).seen@[i].1@ == q.1;
                    assert(self.seen@[i] == old(self).seen@[i]);
                }
                if q == p {
                    assert(self.seen@[self.seen@.len() - 1].0@ == q.0);
                }
                if self.view().contains(q) {
                    let i = choose|i: int|
                        0 <= i < self.seen@.len() && (#[trigger] self.seen@[i]).0@ == q.0
                            && self.seen@[i].1@ == q.1;
                    if i < old(self).seen@.len() {
                        assert(self.seen@[i] == old(self).seen@[i]);
                    }
                }
            }
            assert(self.view() =~= old(self).view().insert(p));
        }
    }
}

/// The deliveries a to-device message from `sender` with id `message_id`
/// makes: none at all when it was handled before, else one per target.
pub fn direct_to_device_deliveries(
    ledger: &TxnIdLedger,
    sender: &String,
    message_id: &String,
    targets: Vec<ToDeviceTarget>,
) -> (r: Option<Vec<ToDeviceTarget>>)
    ensures
        ledger.view().contains((sender@, message_id@)) ==> r is None,
        !ledger.view().contains((sender@, message_id@)) ==> r == Some(targets),
{
    if ledger.existing_txnid(sender, message_id) {
        None
    } else {
        Some(targets)
    }
}

/// Replaying a to-device message after it was handled does nothing: once
/// its (sender, message id) is recorded, `direct_to_device_deliveries`
/// skips it, and recording it again leaves the ledger as it is.
pub proof fn lemma_direct_to_device_replay(
    before: TxnIdLedger,
    after: TxnIdLedger,
    sender: Seq<char>,
    message_id: Seq<char>,
)
    requires
        after.view() == before.view().insert((sender, message_id)),
    ensures
        after.view().contains((sender, message_id)),
        after.view().insert((sender, message_id)) == after.view(),
{
    assert(after.view().insert((sender, message_id)) =~= after.view());
}

} // verus!
