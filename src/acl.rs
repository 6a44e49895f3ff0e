use vstd::prelude::*;

use crate::error::{Error, ErrorKind};
use crate::dest::lacks;
use crate::keys::ids_view;

verus! {

/// The content of a room's server ACL event: whether IP literal server names
/// are allowed, and the allowed and denied server name patterns.
pub struct ServerAcl {
    pub allow_ip_literals: bool,
    pub allow: Vec<String>,
    pub deny: Vec<String>,
}

/// The ACL that the JSON text `json` holds as an `m.room.server_acl`
/// content: IP literal flag, allow patterns, deny patterns; none when the text
/// is no such content.
pub uninterp spec fn acl_content_of(json: Seq<char>) -> Option<(bool, Seq<Seq<char>>, Seq<Seq<char>>)>;

/// Whether the ACL given by its IP literal flag and its allow and deny
/// patterns lets the server `server` in; none when `server` is no valid
/// server name.
pub uninterp spec fn acl_allows(
    allow_ip_literals: bool,
    allow: Seq<Seq<char>>,
    deny: Seq<Seq<char>>,
    server: Seq<char>,
) -> Option<bool>;

/// Whether `s` is a valid room id.
pub uninterp spec fn room_id_valid(s: Seq<char>) -> bool;

/// Whether `s` is a valid user id.
pub uninterp spec fn user_id_valid(s: Seq<char>) -> bool;

/// Relies on ruma's `UserId::parse`: whether the text is a valid user id.
#[verifier::external_body]
pub(crate) fn is_valid_user_id(s: &str) -> (r: bool)
    ensures
        r == user_id_valid(s@),
{
    ruma::UserId::parse(s).is_ok()
}

/// Whether `s` is a valid server name.
pub uninterp spec fn server_name_valid(s: Seq<char>) -> bool;

/// Relies on `serde_json::from_str` into ruma's `RoomServerAclEventContent`:
/// the ACL that the JSON holds, if it is a valid ACL content.
#[verifier::external_body]
fn parse_acl_content(json: &str) -> (r: Option<ServerAcl>)
    ensures
        r is Some <==> acl_content_of(json@) is Some,
        r matches Some(a) ==> acl_content_of(json@) == Some(
            (a.allow_ip_literals, ids_view(a.allow@), ids_view(a.deny@)),
        ),
{
    let content: ruma::events::room::server_acl::RoomServerAclEventContent =
        serde_json::from_str(json).ok()?;
    Some(ServerAcl { allow_ip_literals: content.allow_ip_literals, allow: content.allow, deny: content.deny })
}

/// `pattern` holds no wildcard.
pub open spec fn literal_pattern(pattern: Seq<char>) -> bool {
    forall|j: int| 0 <= j < pattern.len() ==> pattern[j] != '*' && pattern[j] != '?'
}

/// The deny patterns name `host` literally.
pub open spec fn denied_literally(deny: Seq<Seq<char>>, host: Seq<char>) -> bool {
    exists|i: int| 0 <= i < deny.len() && #[trigger] deny[i] == host && literal_pattern(deny[i])
}

/// Relies on ruma's `RoomServerAclEventContent::is_allowed`, after the name
/// is read as ruma's `ServerName`: a server name without a port (whose host
/// is then the whole name) that a deny pattern without wildcards spells out
/// is not let in, since such a pattern matches exactly its own text.
#[verifier::external_body]
fn server_acl_is_allowed(acl: &ServerAcl, server_name: &str) -> (r: Option<bool>)
    ensures
        r == acl_allows(acl.allow_ip_literals, ids_view(acl.allow@), ids_view(acl.deny@), server_name@),
        denied_literally(ids_view(acl.deny@), server_name@) && lacks(server_name@, ':') && lacks(
            server_name@,
            ']',
        ) ==> r != Some(true),
{
    let name = <&ruma::ServerName>::try_from(server_name).ok()?;
    let content = ruma::events::room::server_acl::RoomServerAclEventContent::new(
        acl.allow_ip_literals,
        acl.allow.clone(),
        acl.deny.clone(),
    );
    Some(content.is_allowed(name))
}

/// Relies on ruma's `RoomId::parse`: whether the text is a valid room id.
#[verifier::external_body]
pub(crate) fn is_valid_room_id(s: &str) -> (r: bool)
    ensures
        r == room_id_valid(s@),
{
    ruma::RoomId::parse(s).is_ok()
}

/// Relies on ruma's `ServerName::parse`: whether the text is a valid server name.
#[verifier::external_body]
pub(crate) fn is_valid_server_name(s: &str) -> (r: bool)
    ensures
        r == server_name_valid(s@),
{
    ruma::ServerName::parse(s).is_ok()
}

/// Whether the room's ACL lets `server_name` in. No ACL event, or one whose
/// content is no valid ACL, lets every server in; a name that is no valid
/// server name is kept out of a room with an ACL.
pub open spec fn acl_permits(acl_event_content: Option<Seq<char>>, server_name: Seq<char>) -> bool {
    match acl_event_content {
        None => true,
        Some(json) => match acl_content_of(json) {
            None => true,
            Some((ip, allow, deny)) => acl_allows(ip, allow, deny, server_name) == Some(true),
        },
    }
}

/// The room has a valid ACL whose deny patterns name `server_name` (a name
/// without a port) literally.
pub open spec fn denied_by_content(acl_event_content: Option<Seq<char>>, server_name: Seq<char>) -> bool {
    &&& acl_event_content matches Some(json)
    &&& acl_content_of(json) matches Some((_, _, deny))
    &&& denied_literally(deny, server_name)
    &&& lacks(server_name, ':')
    &&& lacks(server_name, ']')
}

/// The error text when the ACL keeps a server out.
pub open spec fn acl_denied_text() -> Seq<char> {
    "Server was denied by ACL"@
}

/// The text of an optional string.
pub open spec fn opt_view(s: Option<String>) -> Option<Seq<char>> {
    match s {
        None => None,
        Some(x) => Some(x@),
    }
}

/// Checks `server_name` against the room's server ACL, given as the content
/// of its ACL event if it has one. Fails with `Forbidden` when it is kept out.
pub fn acl_check(server_name: &str, acl_event_content: &Option<String>) -> (r: Result<(), Error>)
    ensures
        r is Ok <==> acl_permits(opt_view(*acl_event_content), server_name@),
        r matches Err(e) ==> (e matches Error::BadRequest(ErrorKind::Forbidden, m) && m@ == acl_denied_text()),
        denied_by_content(opt_view(*acl_event_content), server_name@) ==> r is Err,
{
    let json = match acl_event_content {
        None => {
            return Ok(());
        },
        Some(json) => json,
    };
    let acl = match parse_acl_content(json.as_str()) {
        None => {
            return Ok(());
        },
        Some(acl) => acl,
    };
    proof {
        reveal_strlit("Server was denied by ACL");
    }
    match server_acl_is_allowed(&acl, server_name) {
        Some(true) => Ok(()),
        _ => Err(Error::bad_request(ErrorKind::Forbidden, "Server was denied by ACL")),
    }
}

} // verus!
