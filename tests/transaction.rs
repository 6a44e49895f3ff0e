use conduit::transaction::{
    direct_to_device_deliveries, pdu_step, pick_receipt_event, signing_key_update_applies,
    transaction_results, typing_action, PduOutcome, PduStep, ToDeviceTarget, TxnIdLedger,
    TypingAction,
};

#[test]
fn pdu_steps() {
    assert_eq!(
        pdu_step("a.example", None, &None),
        PduStep::Fail(String::from("Event needs a valid RoomId."))
    );
    assert_eq!(
        pdu_step("a.example", Some(String::from("not a room")), &None),
        PduStep::Fail(String::from("Event needs a valid RoomId."))
    );
    assert_eq!(
        pdu_step("a.example", Some(String::from("!room:a.example")), &None),
        PduStep::Admit(String::from("!room:a.example"))
    );
    let acl = Some(String::from("{\"allow\": [\"*\"], \"deny\": [\"evil.example\"]}"));
    assert_eq!(
        pdu_step("evil.example", Some(String::from("!room:a.example")), &acl),
        PduStep::Fail(String::from("Server was denied by ACL"))
    );
}

#[test]
fn bad_pdu_does_not_abort_transaction() {
    let outcomes = vec![
        PduOutcome::Processed { event_id: String::from("$1"), outcome: Ok(()) },
        PduOutcome::Processed {
            event_id: String::from("$2"),
            outcome: Err(String::from("Event needs a valid RoomId.")),
        },
        PduOutcome::Unreadable,
        PduOutcome::Processed { event_id: String::from("$3"), outcome: Ok(()) },
    ];
    let results = transaction_results(&outcomes);
    assert_eq!(
        results,
        vec![
            (String::from("$1"), None),
            (String::from("$2"), Some(String::from("Event needs a valid RoomId."))),
            (String::from("$3"), None),
        ]
    );
}

#[test]
fn receipts_pick_highest_known() {
    assert_eq!(pick_receipt_event(&vec![None, None]), None);
    assert_eq!(pick_receipt_event(&vec![]), None);
    assert_eq!(pick_receipt_event(&vec![Some(3), None, Some(7), Some(5)]), Some(2));
    assert_eq!(pick_receipt_event(&vec![Some(7), Some(7)]), Some(1));
}

#[test]
fn typing_updates() {
    assert_eq!(typing_action(false, true, 10), TypingAction::Ignore);
    assert_eq!(typing_action(true, true, 10), TypingAction::Add { until_ms: 3010 });
    assert_eq!(typing_action(true, false, 10), TypingAction::Remove);
    assert_eq!(typing_action(true, true, u64::MAX - 1), TypingAction::Add { until_ms: u64::MAX });
}

#[test]
fn signing_key_updates_from_own_server_only() {
    assert!(signing_key_update_applies("@alice:a.example", "a.example"));
    assert!(!signing_key_update_applies("@alice:a.example", "b.example"));
    assert!(signing_key_update_applies("@alice:a.example:8448", "a.example:8448"));
    assert!(!signing_key_update_applies("alice", "alice"));
}

#[test]
fn to_device_replay_is_skipped() {
    let mut ledger = TxnIdLedger::new();
    let sender = String::from("@alice:a.example");
    let id = String::from("m1");
    let targets = || {
        vec![
            ToDeviceTarget { user_id: String::from("@bob:b.example"), device_id: Some(String::from("D")) },
            ToDeviceTarget { user_id: String::from("@carol:b.example"), device_id: None },
        ]
    };
    let first = direct_to_device_deliveries(&ledger, &sender, &id, targets());
    assert_eq!(first, Some(targets()));
    ledger.add_txnid(&sender, &id);
    assert!(ledger.existing_txnid(&sender, &id));
    assert_eq!(direct_to_device_deliveries(&ledger, &sender, &id, targets()), None);
    let other = String::from("m2");
    assert_eq!(direct_to_device_deliveries(&ledger, &sender, &other, targets()), Some(targets()));
}

#[test]
fn repeated_event_id_is_reported_once() {
    let outcomes = vec![
        PduOutcome::Processed { event_id: String::from("$1"), outcome: Err(String::from("first")) },
        PduOutcome::Processed { event_id: String::from("$2"), outcome: Ok(()) },
        PduOutcome::Processed { event_id: String::from("$1"), outcome: Ok(()) },
    ];
    assert_eq!(
        transaction_results(&outcomes),
        vec![(String::from("$1"), None), (String::from("$2"), None)]
    );
}
