use envoy::error::EnvoyError;
use envoy::message::store::{MessageRecord, MessageStore};
use envoy::message::{
    CompletionStatus, HandoffData, MagellanTracePayload, MessageEnvelope, MessageType, Part, PartContent,
    QualityGateResult, VerificationState,
};

fn handoff(status: CompletionStatus, reason: Option<String>, pct: u8) -> HandoffData {
    HandoffData {
        completion_status: status,
        blocked_reason: reason,
        context_remaining_pct: pct,
        what_was_done: vec![],
        what_is_stubbed: vec![],
        remaining_work: vec![],
        verification_state: VerificationState {
            tests_passing: 0,
            tests_failing: 0,
            quality_gate: QualityGateResult { passed: true, blocking: 0, warnings: 0 },
            cargo_check_passed: true,
        },
        magellan_trace: MagellanTracePayload {
            files_changed: vec![],
            symbols_added: vec![],
            symbols_removed: vec![],
            refs_in: Default::default(),
            refs_out: Default::default(),
        },
        grounded_queries_used: vec![],
    }
}

fn envelope(parts: Vec<Part>) -> MessageEnvelope {
    MessageEnvelope {
        message_id: "m-001".into(),
        msg_type: MessageType::Direct,
        from: "id1".into(),
        to: "id2".into(),
        task_id: None,
        context_id: None,
        timestamp: "now".into(),
        sequence_id: 1,
        parts,
    }
}

#[test]
fn handoff_blocked_requires_reason() {
    let h = handoff(CompletionStatus::Blocked, None, 50);
    assert!(h.validate().is_err());
}

#[test]
fn handoff_checks_percentage() {
    assert!(handoff(CompletionStatus::Blocked, Some("waiting".into()), 28).validate().is_ok());
    assert!(handoff(CompletionStatus::Done, None, 100).validate().is_ok());
    let err = handoff(CompletionStatus::Done, None, 101).validate().unwrap_err();
    assert!(matches!(err, EnvoyError::InvalidMessage(ref m) if m == "context_remaining_pct must be 0-100"));
}

#[test]
fn message_empty_parts_rejected() {
    let msg = envelope(vec![]);
    assert!(msg.validate().is_err());
}

#[test]
fn message_too_many_parts_rejected() {
    let parts: Vec<Part> = (0..25).map(|_| Part { content: PartContent::Text("x".into()) }).collect();
    let msg = envelope(parts);
    assert!(matches!(msg.validate(), Err(EnvoyError::TooManyParts(25))));
}

#[test]
fn message_size_limits() {
    let parts: Vec<Part> = (0..20).map(|_| Part { content: PartContent::Text("x".into()) }).collect();
    assert!(envelope(parts).validate().is_ok());
    let big = "y".repeat(1_048_577);
    let msg = envelope(vec![Part { content: PartContent::Text("ok".into()) }, Part { content: PartContent::Text(big) }]);
    assert!(matches!(msg.validate(), Err(EnvoyError::MessageTooLarge(1_048_577))));
    let exact = "y".repeat(1_048_576);
    assert!(envelope(vec![Part { content: PartContent::Text(exact) }]).validate().is_ok());
}

fn rec(to: &str, seq: i64, acked: &[&str]) -> MessageRecord {
    MessageRecord { to: to.into(), sequence_id: seq, acked_by: acked.iter().map(|s| s.to_string()).collect() }
}

#[test]
fn store_message_store_assigns_ids() {
    let store = MessageStore::new();
    // the first message to a recipient finds no counter
    let (first, next) = store.next_sequence(None);
    assert_eq!(first, 1);
    let (second, after) = store.next_sequence(Some(Some(next)));
    assert_eq!(second, 2);
    assert_eq!(after, 3);

    let msgs = vec![rec("id2", 1, &[]), rec("id2", 2, &[])];
    let all = store.poll_order(&msgs, "id2", 0, 50, true);
    assert_eq!(all.len(), 2);

    let newer = store.poll_order(&msgs, "id2", 1, 50, true);
    assert_eq!(newer.len(), 1);
    assert_eq!(msgs[newer[0]].sequence_id, 2);
}

#[test]
fn poll_orders_filters_and_caps() {
    let store = MessageStore::new();
    let msgs = vec![
        rec("id2", 5, &[]),
        rec("id3", 1, &[]),
        rec("id2", 2, &["id2"]),
        rec("id2", 3, &[]),
        rec("id2", 3, &[]),
    ];
    assert_eq!(store.poll_order(&msgs, "id2", 0, 50, true), vec![2, 3, 4, 0]);
    assert_eq!(store.poll_order(&msgs, "id2", 0, 50, false), vec![3, 4, 0]);
    assert_eq!(store.poll_order(&msgs, "id2", 0, 2, false), vec![3, 4]);
    assert_eq!(store.poll_order(&msgs, "id2", 0, 0, false), Vec::<usize>::new());
    assert_eq!(store.poll_order(&msgs, "id2", 0, -1, false), vec![3, 4, 0]);
}

#[test]
fn poll_never_returns_more_than_a_hundred() {
    let store = MessageStore::new();
    let msgs: Vec<MessageRecord> = (0..150).map(|i| rec("a", i, &[])).collect();
    assert_eq!(store.poll_order(&msgs, "a", -1, 500, true).len(), 100);
}

#[test]
fn ack_adds_agent_once() {
    let store = MessageStore::new();
    let once = store.ack_list(vec![], "id2");
    assert_eq!(once, vec!["id2".to_string()]);
    let twice = store.ack_list(once, "id2");
    assert_eq!(twice, vec!["id2".to_string()]);
    let other = store.ack_list(twice, "id3");
    assert_eq!(other, vec!["id2".to_string(), "id3".to_string()]);
}

#[test]
fn message_ids_parse_as_integers() {
    let store = MessageStore::new();
    assert_eq!(store.parse_message_id("42").unwrap(), 42);
    assert_eq!(store.parse_message_id("-7").unwrap(), -7);
    assert_eq!(store.parse_message_id("+7").unwrap(), 7);
    assert_eq!(store.parse_message_id("-9223372036854775808").unwrap(), i64::MIN);
    assert!(matches!(store.parse_message_id("9223372036854775808"), Err(EnvoyError::MessageNotFound(ref m)) if m == "9223372036854775808"));
    assert!(store.parse_message_id("abc").is_err());
    assert!(store.parse_message_id("").is_err());
    assert!(store.parse_message_id("-").is_err());
    assert_eq!(store.counter_name("id2"), "msg-seq-id2");
}
