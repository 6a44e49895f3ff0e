use conduit::acl::acl_check;
use conduit::error::{Error, ErrorKind};
use conduit::join::{
    check_invite, invite_parties, check_remote_join, check_send_join, create_join_event_template,
    invite_records_membership, join_event_origin, servers_to_notify, RoomJoinState,
};

fn acl(json: &str) -> Option<String> {
    Some(String::from(json))
}

fn room(acl_content: Option<String>, join_rules: Option<String>) -> RoomJoinState {
    RoomJoinState {
        exists: true,
        acl_event_content: acl_content,
        join_rules_content: join_rules,
        room_version: String::from("10"),
    }
}

#[test]
fn acl_denies_matching_server() {
    let content = acl("{\"allow\": [\"*\"], \"deny\": [\"evil.example\"]}");
    assert!(matches!(
        acl_check("evil.example", &content),
        Err(Error::BadRequest(ErrorKind::Forbidden, _))
    ));
    assert_eq!(acl_check("good.example", &content), Ok(()));
}

#[test]
fn acl_wildcards_and_defaults() {
    let content = acl("{\"allow\": [\"*.example\"], \"deny\": [\"bad*\"]}");
    assert_eq!(acl_check("a.example", &content), Ok(()));
    assert!(acl_check("bad.example", &content).is_err());
    assert!(acl_check("other.org", &content).is_err());
    assert!(acl_check("x.example", &acl("{}")).is_err());
    assert!(acl_check("1.2.3.4", &acl("{\"allow\": [\"*\"], \"allow_ip_literals\": false}")).is_err());
}

#[test]
fn no_acl_allows_all() {
    assert_eq!(acl_check("evil.example", &None), Ok(()));
    assert_eq!(acl_check("evil.example", &acl("not json")), Ok(()));
}

#[test]
fn make_join_rejects_unsupported_version() {
    let r = room(None, None);
    let result = create_join_event_template(true, &r, "remote.example", "@u:remote.example", &vec![String::from("9")]);
    match result {
        Err(Error::BadRequest(ErrorKind::IncompatibleRoomVersion { room_version }, _)) => {
            assert_eq!(room_version, "10")
        }
        other => panic!("unexpected {:?}", other),
    }
}

#[test]
fn make_join_builds_template() {
    let r = room(None, Some(String::from("{\"join_rule\": \"public\"}")));
    let t = create_join_event_template(
        true,
        &r,
        "remote.example",
        "@u:remote.example",
        &vec![String::from("9"), String::from("10")],
    )
    .unwrap();
    assert_eq!(t.event_type, "m.room.member");
    assert_eq!(t.content, "{\"membership\":\"join\"}");
    assert_eq!(t.state_key, "@u:remote.example");
    assert_eq!(t.room_version, "10");
}

#[test]
fn remote_join_checks() {
    let ok = room(None, None);
    assert!(matches!(check_remote_join(false, &ok, "a.example"), Err(Error::BadConfig(_))));
    let unknown = RoomJoinState { exists: false, ..room(None, None) };
    assert!(matches!(
        check_remote_join(true, &unknown, "a.example"),
        Err(Error::BadRequest(ErrorKind::NotFound, _))
    ));
    let denied = room(acl("{\"allow\": [\"*\"], \"deny\": [\"a.example\"]}"), None);
    assert!(matches!(
        check_remote_join(true, &denied, "a.example"),
        Err(Error::BadRequest(ErrorKind::Forbidden, _))
    ));
    let restricted = room(
        None,
        Some(String::from("{\"join_rule\": \"restricted\", \"allow\": []}")),
    );
    assert!(matches!(
        check_remote_join(true, &restricted, "a.example"),
        Err(Error::BadRequest(ErrorKind::Unknown, _))
    ));
    let broken = room(None, Some(String::from("{")));
    assert!(matches!(check_remote_join(true, &broken, "a.example"), Err(Error::BadDatabase(_))));
    assert_eq!(check_remote_join(true, &ok, "a.example"), Ok(()));
}

#[test]
fn send_join_needs_current_state() {
    let ok = room(None, None);
    assert!(matches!(
        check_send_join(true, &ok, "a.example", false),
        Err(Error::BadRequest(ErrorKind::NotFound, _))
    ));
    assert_eq!(check_send_join(true, &ok, "a.example", true), Ok(()));
}

#[test]
fn join_origin_and_forwarding() {
    assert_eq!(join_event_origin(Some(String::from("a.example"))), Ok(String::from("a.example")));
    assert!(matches!(
        join_event_origin(None),
        Err(Error::BadRequest(ErrorKind::InvalidParam, _))
    ));
    assert!(matches!(
        join_event_origin(Some(String::from(""))),
        Err(Error::BadRequest(ErrorKind::InvalidParam, _))
    ));
    let servers = vec![String::from("a.example"), String::from("me.example"), String::from("b.example")];
    assert_eq!(
        servers_to_notify(&servers, "me.example"),
        vec![String::from("a.example"), String::from("b.example")]
    );
}

#[test]
fn invites() {
    assert!(invite_records_membership(false));
    assert!(!invite_records_membership(true));
    let v = String::from("10");
    assert_eq!(check_invite(true, "a.example", &None, &v, true), Ok(()));
    match check_invite(true, "a.example", &None, &v, false) {
        Err(Error::BadRequest(ErrorKind::IncompatibleRoomVersion { room_version }, _)) => {
            assert_eq!(room_version, "10")
        }
        other => panic!("unexpected {:?}", other),
    }
    assert!(matches!(check_invite(false, "a.example", &None, &v, true), Err(Error::BadConfig(_))));
}

#[test]
fn invite_parties_must_be_user_ids() {
    assert_eq!(
        invite_parties(Some(String::from("@a:x.example")), Some(String::from("@b:y.example"))),
        Ok((String::from("@a:x.example"), String::from("@b:y.example")))
    );
    assert!(matches!(
        invite_parties(None, Some(String::from("@b:y.example"))),
        Err(Error::BadRequest(ErrorKind::InvalidParam, _))
    ));
    assert!(matches!(
        invite_parties(Some(String::from("a")), Some(String::from("@b:y.example"))),
        Err(Error::BadRequest(ErrorKind::InvalidParam, _))
    ));
    assert!(matches!(
        invite_parties(Some(String::from("@a:x.example")), Some(String::from("b"))),
        Err(Error::BadRequest(ErrorKind::InvalidParam, _))
    ));
}

#[test]
fn make_join_error_texts() {
    let unknown = RoomJoinState { exists: false, ..room(None, None) };
    assert_eq!(
        create_join_event_template(true, &unknown, "a.example", "@u:a.example", &vec![]),
        Err(Error::BadRequest(ErrorKind::NotFound, String::from("Room is unknown to this server.")))
    );
    let r = room(None, None);
    assert_eq!(
        create_join_event_template(true, &r, "a.example", "@u:a.example", &vec![]),
        Err(Error::BadRequest(
            ErrorKind::IncompatibleRoomVersion { room_version: String::from("10") },
            String::from("Room version not supported.")
        ))
    );
    let denied = room(acl("{\"allow\": [\"*\"], \"deny\": [\"a.example\"]}"), None);
    assert_eq!(
        create_join_event_template(true, &denied, "a.example", "@u:a.example", &vec![String::from("10")]),
        Err(Error::BadRequest(ErrorKind::Forbidden, String::from("Server was denied by ACL")))
    );
}

#[test]
fn join_admission_answers() {
    assert_eq!(conduit::join::join_admission_outcome(Ok(Some(String::from("$p")))), Ok(String::from("$p")));
    assert_eq!(
        conduit::join::join_admission_outcome(Ok(None)),
        Err(Error::BadRequest(ErrorKind::InvalidParam, String::from("Could not accept incoming PDU as timeline event.")))
    );
    assert_eq!(
        conduit::join::join_admission_outcome(Err(String::from("x"))),
        Err(Error::BadRequest(ErrorKind::InvalidParam, String::from("Error while handling incoming PDU.")))
    );
}
