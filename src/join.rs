use vstd::prelude::*;

use crate::acl::{
    acl_check, acl_denied_text, acl_permits, is_valid_server_name, is_valid_user_id, opt_view,
    server_name_valid, user_id_valid,
};
use crate::error::{Error, ErrorKind};
use crate::keys::ids_view;
use crate::text::push_str;

verus! {

/// Whether the JSON text holds an `m.room.join_rules` content whose rule is
/// `restricted`; none when it is no valid join rules content.
pub uninterp spec fn join_rule_restricted_of(json: Seq<char>) -> Option<bool>;

/// Relies on `serde_json::from_str` into ruma's `RoomJoinRulesEventContent`:
/// whether its join rule is `Restricted`, if the JSON is such a content.
#[verifier::external_body]
fn join_rule_is_restricted(json: &str) -> (r: Option<bool>)
    ensures
        r == join_rule_restricted_of(json@),
{
    let content: ruma::events::room::join_rules::RoomJoinRulesEventContent =
        serde_json::from_str(json).ok()?;
    match content.join_rule {
        ruma::room::JoinRule::Restricted(_) => Some(true),
        _ => Some(false),
    }
}

/// What is known of a room when a remote server asks to join it.
pub struct RoomJoinState {
    /// Whether this server knows the room.
    pub exists: bool,
    /// The content of the room's server ACL event, if it has one.
    pub acl_event_content: Option<String>,
    /// The content of the room's join rules event, if it has one.
    pub join_rules_content: Option<String>,
    /// The room's version.
    pub room_version: String,
}

/// The checks that a join by `sender` into `room` passes before the join
/// event is built or accepted.
pub open spec fn join_allowed(allow_federation: bool, room: RoomJoinState, sender: Seq<char>) -> bool {
    &&& allow_federation
    &&& room.exists
    &&& acl_permits(opt_view(room.acl_event_content), sender)
    &&& match room.join_rules_content {
        None => true,
        Some(j) => join_rule_restricted_of(j@) == Some(false),
    }
}

/// The error text for a room this server does not know.
pub open spec fn unknown_room_text() -> Seq<char> {
    "Room is unknown to this server."@
}

/// The error text when the room's version is not among the requester's.
pub open spec fn unsupported_version_text() -> Seq<char> {
    "Room version not supported."@
}

/// Runs the checks that come before a remote join: federation must be on,
/// the room known, `sender` let in by the room's ACL, and the room's join
/// rules readable and not restricted.
pub fn check_remote_join(allow_federation: bool, room: &RoomJoinState, sender: &str) -> (r: Result<
    (),
    Error,
>)
    ensures
        r is Ok <==> join_allowed(allow_federation, *room, sender@),
        !allow_federation ==> (r matches Err(e) && e is BadConfig),
        allow_federation && !room.exists ==> (r matches Err(Error::BadRequest(ErrorKind::NotFound, m))
            && m@ == unknown_room_text()),
        allow_federation && room.exists && !acl_permits(opt_view(room.acl_event_content), sender@)
            ==> (r matches Err(Error::BadRequest(ErrorKind::Forbidden, m)) && m@ == acl_denied_text()),
        allow_federation && room.exists && acl_permits(opt_view(room.acl_event_content), sender@)
            ==> match room.join_rules_content {
            None => r is Ok,
            Some(j) => match join_rule_restricted_of(j@) {
                None => (r matches Err(e) && e is BadDatabase),
                Some(true) => (r matches Err(e) && e is BadRequest && e->BadRequest_0 is Unknown),
                Some(false) => r is Ok,
            },
        },
{
    if !allow_federation {
        return Err(Error::federation_disabled());
    }
    if !room.exists {
        proof {
            reveal_strlit("Room is unknown to this server.");
        }
        return Err(Error::bad_request(ErrorKind::NotFound, "Room is unknown to this server."));
    }
    match acl_check(sender, &room.acl_event_content) {
        Err(e) => {
            return Err(e);
        },
        Ok(()) => {},
    }
    match &room.join_rules_content {
        None => Ok(()),
        Some(json) => match join_rule_is_restricted(json.as_str()) {
            None => Err(Error::BadDatabase("Invalid join rules event in db.".to_owned())),
            Some(true) => Err(
                Error::bad_request(ErrorKind::Unknown, "Conduit does not support restricted rooms yet."),
            ),
            Some(false) => Ok(()),
        },
    }
}

/// Whether `v` is among `versions`.
pub open spec fn version_listed(versions: Seq<String>, v: Seq<char>) -> bool {
    exists|i: int| 0 <= i < versions.len() && (#[trigger] versions[i])@ == v
}

fn contains_version(versions: &Vec<String>, v: &String) -> (r: bool)
    ensures
        r == version_listed(versions@, v@),
{
    let mut i: usize = 0;
    while i < versions.len()
        invariant
            0 <= i <= versions@.len(),
            forall|j: int| 0 <= j < i ==> (#[trigger] versions@[j])@ != v@,
        decreases versions@.len() - i,
    {
        if versions[i] == *v {
            return true;
        }
        i += 1;
    }
    false
}

/// The unsigned membership event a remote user is handed to sign and send
/// back: its type, its JSON content, its state key (the user id), and the
/// room's version.
#[derive(Debug, PartialEq)]
pub struct JoinTemplate {
    pub event_type: String,
    pub content: String,
    pub state_key: String,
    pub room_version: String,
}

/// The type of membership events.
pub open spec fn member_event_type() -> Seq<char> {
    "m.room.member"@
}

/// The content of a join membership event.
pub open spec fn join_content() -> Seq<char> {
    "{\"membership\":\"join\"}"@
}

/// Builds the join template for `user_id` in `room` as asked by `sender`,
/// which supports the room versions `ver`. Refused as `check_remote_join`
/// refuses, and with `IncompatibleRoomVersion` (naming the room's version)
/// when `ver` lacks the room's version. Nothing is changed either way.
pub fn create_join_event_template(
    allow_federation: bool,
    room: &RoomJoinState,
    sender: &str,
    user_id: &str,
    ver: &Vec<String>,
) -> (r: Result<JoinTemplate, Error>)
    ensures
        r is Ok <==> join_allowed(allow_federation, *room, sender@) && version_listed(
            ver@,
            room.room_version@,
        ),
        join_allowed(allow_federation, *room, sender@) && !version_listed(ver@, room.room_version@)
            ==> (r matches Err(e) && crate::error::is_incompatible_version(e, room.room_version@)
            && e->BadRequest_1@ == unsupported_version_text()),
        !allow_federation ==> (r matches Err(e) && e is BadConfig),
        allow_federation && !room.exists ==> (r matches Err(Error::BadRequest(ErrorKind::NotFound, m))
            && m@ == unknown_room_text()),
        allow_federation && room.exists && !acl_permits(opt_view(room.acl_event_content), sender@)
            ==> (r matches Err(Error::BadRequest(ErrorKind::Forbidden, m)) && m@ == acl_denied_text()),
        allow_federation && room.exists && acl_permits(opt_view(room.acl_event_content), sender@)
            ==> match room.join_rules_content {
            None => true,
            Some(j) => match join_rule_restricted_of(j@) {
                None => (r matches Err(e) && e is BadDatabase),
                Some(true) => (r matches Err(e) && e is BadRequest && e->BadRequest_0 is Unknown),
                Some(false) => true,
            },
        },
        r matches Ok(t) ==> t.event_type@ == member_event_type() && t.content@ == join_content()
            && t.state_key@ == user_id@ && t.room_version@ == room.room_version@,
{
    match check_remote_join(allow_federation, room, sender) {
        Err(e) => {
            return Err(e);
        },
        Ok(()) => {},
    }
    if !contains_version(ver, &room.room_version) {
        proof {
            reveal_strlit("Room version not supported.");
        }
        return Err(
            Error::bad_request(
                ErrorKind::IncompatibleRoomVersion { room_version: room.room_version.clone() },
                "Room version not supported.",
            ),
        );
    }
    proof {
        reveal_strlit("m.room.member");
        reveal_strlit("{\"membership\":\"join\"}");
    }
    let mut state_key = String::new();
    push_str(&mut state_key, user_id);
    Ok(
        JoinTemplate {
            event_type: "m.room.member".to_owned(),
            content: "{\"membership\":\"join\"}".to_owned(),
            state_key,
            room_version: room.room_version.clone(),
        },
    )
}

/// The checks before a submitted join event is admitted: those of
/// `check_remote_join`, then the room's current state must be known (the
/// state returned is the one before the join).
pub fn check_send_join(
    allow_federation: bool,
    room: &RoomJoinState,
    sender: &str,
    current_state_known: bool,
) -> (r: Result<(), Error>)
    ensures
        r is Ok <==> join_allowed(allow_federation, *room, sender@) && current_state_known,
        join_allowed(allow_federation, *room, sender@) && !current_state_known ==> (r matches Err(e)
            && crate::error::is_not_found(e)),
{
    match check_remote_join(allow_federation, room, sender) {
        Err(e) => {
            return Err(e);
        },
        Ok(()) => {},
    }
    if !current_state_known {
        return Err(Error::bad_request(ErrorKind::NotFound, "Pdu state not found."));
    }
    Ok(())
}

/// Reads the `origin` field of a submitted join event as a server name;
/// fails with `InvalidParam` when it is missing or no valid server name.
pub fn join_event_origin(origin_field: Option<String>) -> (r: Result<String, Error>)
    ensures
        r is Ok <==> (origin_field matches Some(o) && server_name_valid(o@)),
        r matches Ok(o) ==> opt_view(origin_field) == Some(o@),
        r matches Err(e) ==> crate::error::is_invalid_param(e),
{
    match origin_field {
        None => Err(Error::bad_request(ErrorKind::InvalidParam, "Event needs an origin field.")),
        Some(o) => {
            if is_valid_server_name(o.as_str()) {
                Ok(o)
            } else {
                Err(Error::bad_request(ErrorKind::InvalidParam, "Origin field is invalid."))
            }
        },
    }
}

/// The servers a newly admitted join is forwarded to: every server in the
/// room but this one, in order.
pub fn servers_to_notify(room_servers: &Vec<String>, own_server: &str) -> (r: Vec<String>)
    ensures
        ids_view(r@) == ids_view(room_servers@).filter(|s: Seq<char>| s != own_server@),
{
    let mut r: Vec<String> = Vec::new();
    let mut i: usize = 0;
    let mut own = String::new();
    push_str(&mut own, own_server);
    while i < room_servers.len()
        invariant
            0 <= i <= room_servers@.len(),
            own@ == own_server@,
            ids_view(r@) == ids_view(room_servers@.subrange(0, i as int)).filter(
                |s: Seq<char>| s != own_server@,
            ),
        decreases room_servers@.len() - i,
    {
        let ghost before = r@;
        let ghost pre = room_servers@.subrange(0, i as int);
        if room_servers[i] != own {
            r.push(room_servers[i].clone());
        }
        proof {
            let next = room_servers@.subrange(0, i + 1);
            assert(next =~= pre.push(room_servers@[i as int]));
            assert(ids_view(next) =~= ids_view(pre).push(room_servers@[i as int]@));
            ids_view(pre).lemma_filter_push(room_servers@[i as int]@, |s: Seq<char>| s != own_server@);
            assert(ids_view(r@) =~= ids_view(next).filter(|s: Seq<char>| s != own_server@));
        }
        i += 1;
    }
    proof {
        assert(room_servers@.subrange(0, room_servers@.len() as int) =~= room_servers@);
    }
    r
}

/// Whether a remote invite is recorded at once: only when the room is not
/// known here, since otherwise its state arrives by the normal join flow.
pub fn invite_records_membership(room_exists: bool) -> (r: bool)
    ensures
        r == !room_exists,
{
    !room_exists
}

/// The checks before a remote invite is signed: federation on, the sender
/// let in by the room's ACL, and the room version supported.
pub fn check_invite(
    allow_federation: bool,
    sender: &str,
    acl_event_content: &Option<String>,
    room_version: &String,
    version_supported: bool,
) -> (r: Result<(), Error>)
    ensures
        r is Ok <==> allow_federation && acl_permits(opt_view(*acl_event_content), sender@)
            && version_supported,
        allow_federation && acl_permits(opt_view(*acl_event_content), sender@) && !version_supported
            ==> (r matches Err(e) && crate::error::is_incompatible_version(e, room_version@)),
{
    if !allow_federation {
        return Err(Error::federation_disabled());
    }
    match acl_check(sender, acl_event_content) {
        Err(e) => {
            return Err(e);
        },
        Ok(()) => {},
    }
    if !version_supported {
        return Err(
            Error::bad_request(
                ErrorKind::IncompatibleRoomVersion { room_version: room_version.clone() },
                "Server does not support this room version.",
            ),
        );
    }
    Ok(())
}

/// Reads the `sender` and `state_key` fields of a signed invite: both must
/// be there and be user ids (the inviter and the invited user). Fails with
/// `InvalidParam` otherwise.
pub fn invite_parties(sender_field: Option<String>, state_key_field: Option<String>) -> (r: Result<
    (String, String),
    Error,
>)
    ensures
        r is Ok <==> (sender_field matches Some(a) && user_id_valid(a@)) && (state_key_field matches Some(
            b,
        ) && user_id_valid(b@)),
        r matches Ok((a, b)) ==> opt_view(sender_field) == Some(a@) && opt_view(state_key_field) == Some(b@),
        r matches Err(e) ==> crate::error::is_invalid_param(e),
{
    let sender = match sender_field {
        None => {
            return Err(Error::bad_request(ErrorKind::InvalidParam, "Event had no sender field."));
        },
        Some(s) => s,
    };
    if !is_valid_user_id(sender.as_str()) {
        return Err(Error::bad_request(ErrorKind::InvalidParam, "sender is not a user id."));
    }
    let invited = match state_key_field {
        None => {
            return Err(Error::bad_request(ErrorKind::InvalidParam, "Event had no state_key field."));
        },
        Some(s) => s,
    };
    if !is_valid_user_id(invited.as_str()) {
        return Err(Error::bad_request(ErrorKind::InvalidParam, "state_key is not a user id."));
    }
    Ok((sender, invited))
}

/// Maps the outcome of admitting a submitted join event to the answer of
/// the join: the admitted event's id, or `InvalidParam` when admission
/// failed or did not make it a timeline event.
pub fn join_admission_outcome(admitted: Result<Option<String>, String>) -> (r: Result<String, Error>)
    ensures
        admitted matches Ok(Some(id)) ==> (r matches Ok(x) && x@ == id@),
        admitted matches Err(_) ==> (r matches Err(Error::BadRequest(ErrorKind::InvalidParam, m))
            && m@ == "Error while handling incoming PDU."@),
        admitted matches Ok(None) ==> (r matches Err(Error::BadRequest(ErrorKind::InvalidParam, m))
            && m@ == "Could not accept incoming PDU as timeline event."@),
{
    proof {
        reveal_strlit("Error while handling incoming PDU.");
        reveal_strlit("Could not accept incoming PDU as timeline event.");
    }
    match admitted {
        Ok(Some(id)) => Ok(id),
        Ok(None) => Err(
            Error::bad_request(ErrorKind::InvalidParam, "Could not accept incoming PDU as timeline event."),
        ),
        Err(_) => Err(Error::bad_request(ErrorKind::InvalidParam, "Error while handling incoming PDU.")),
    }
}

} // verus!
