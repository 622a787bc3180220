use envoy::dependency::AgentDependency;
use envoy::hook::{ahash_hex, hex16};
use envoy::nudge::heartbeat_nudges;
use envoy::status::NudgeSeverity;
use envoy::audit::AuditStore;
use envoy::engine::{ChannelEventRecord, Engine, SubscriptionRecord};
use envoy::error::EnvoyError;
use envoy::event::{CiEventRequest, DocEventRequest, EventSeverity, EventType, GateEventRequest, HookEventRequest, VerifyEventRequest};
use envoy::message::MessageType;

fn ev(id: i64, channel_id: i64, sequence_id: i64) -> ChannelEventRecord {
    ChannelEventRecord { id, channel_id, sequence_id }
}

#[test]
fn engine_record_names() {
    let e = Engine::new();
    assert_eq!(e.sub_entity_name("agent-1", 7), "sub-agent-1-7");
    assert_eq!(e.seq_counter_name(7), "seq-7");
    assert_eq!(e.event_entity_name(7, 12), "event-7-12");
    assert!(e.check_new_channel("general", false).is_ok());
    match e.check_new_channel("general", true) {
        Err(EnvoyError::ChannelAlreadyExists(n)) => assert_eq!(n, "general"),
        _ => panic!("expected ChannelAlreadyExists"),
    }
}

#[test]
fn sequence_counter_counts_up() {
    let e = Engine::new();
    assert_eq!(e.next_sequence_id(None), (1, 2));
    assert_eq!(e.next_sequence_id(Some(None)), (1, 2));
    assert_eq!(e.next_sequence_id(Some(Some(5))), (5, 6));
    assert_eq!(e.max_sequence_id(None), 0);
    assert_eq!(e.max_sequence_id(Some(Some(6))), 5);
}

#[test]
fn replay_filters_orders_and_limits() {
    let e = Engine::new();
    let events = vec![ev(10, 1, 3), ev(11, 2, 1), ev(12, 1, 1), ev(13, 1, 2), ev(14, 1, 4)];
    assert_eq!(e.replay_order(&events, 1, 0, None), vec![2, 3, 0, 4]);
    assert_eq!(e.replay_order(&events, 1, 2, None), vec![0, 4]);
    assert_eq!(e.replay_order(&events, 1, 0, Some(2)), vec![2, 3]);
    assert_eq!(e.replay_order(&events, 3, 0, None), Vec::<usize>::new());
}

#[test]
fn catch_up_moves_the_mark_and_drains() {
    let e = Engine::new();
    let events = vec![ev(10, 1, 3), ev(12, 1, 1), ev(13, 1, 2)];
    let (order, mark) = e.catch_up_order(&events, 1, 1);
    assert_eq!(order, vec![2, 0]);
    assert_eq!(mark, 3);
    let (again, mark2) = e.catch_up_order(&events, 1, mark);
    assert!(again.is_empty());
    assert_eq!(mark2, 3);
}

#[test]
fn subscriptions_listed_for_agent_on_live_channels() {
    let e = Engine::new();
    let subs = vec![
        SubscriptionRecord { agent_id: "a".to_string(), channel_id: 1 },
        SubscriptionRecord { agent_id: "b".to_string(), channel_id: 1 },
        SubscriptionRecord { agent_id: "a".to_string(), channel_id: 9 },
        SubscriptionRecord { agent_id: "a".to_string(), channel_id: 2 },
    ];
    assert_eq!(e.subscription_positions(&subs, "a", &vec![1, 2]), vec![0, 3]);
}

#[test]
fn ingest_plans_for_reports() {
    let hook = HookEventRequest { project: "p".into(), hook_name: "stub-check".into(), exit_code: 2, output: "x".repeat(300) };
    let plan = hook.plan();
    assert_eq!(plan.event_type, EventType::HookResult);
    assert_eq!(plan.severity, EventSeverity::Blocking);
    assert_eq!(plan.source, "hook:stub-check");
    assert_eq!(plan.message, "Hook stub-check exited 2");
    assert_eq!(plan.broadcast_kind, "hook_event");
    assert_eq!(hook.output_preview().chars().count(), 200);
    let warn = HookEventRequest { project: "p".into(), hook_name: "h".into(), exit_code: -1, output: String::new() };
    assert_eq!(warn.plan().severity, EventSeverity::Warning);
    assert_eq!(warn.plan().message, "Hook h exited -1");

    let gate = GateEventRequest { project: "p".into(), gates_passed: 3, gates_total: 4, failures: vec![] };
    let plan = gate.plan();
    assert_eq!(plan.severity, EventSeverity::Warning);
    assert_eq!(plan.message, "3/4 passed");
    assert_eq!(plan.source, "gate:quality");

    let ci = CiEventRequest {
        project: "p".into(),
        run_id: "123".into(),
        status: "completed".into(),
        conclusion: Some("failure".into()),
        head_branch: "main".into(),
        display_title: "t".into(),
    };
    assert_eq!(ci.plan().severity, EventSeverity::Blocking);
    assert_eq!(ci.plan().message, "CI 123: failure");
    let running = CiEventRequest { conclusion: None, ..ci.clone() };
    assert_eq!(running.plan().severity, EventSeverity::Info);
    assert_eq!(running.plan().message, "CI 123: in_progress");

    let doc = DocEventRequest { project: "p".into(), doc_files: vec![], last_updated_seconds: 90000 };
    assert_eq!(doc.plan().severity, EventSeverity::Warning);
    assert_eq!(doc.plan().message, "Docs last updated 90000s ago");
    let fresh = DocEventRequest { project: "p".into(), doc_files: vec![], last_updated_seconds: 86400 };
    assert_eq!(fresh.plan().severity, EventSeverity::Info);

    let verify = VerifyEventRequest {
        project: "p".into(),
        agent_id: "a".into(),
        task_type: "impl".into(),
        claimed_files: vec![],
        passed: 4,
        failed: 1,
        failures: vec![],
    };
    let plan = verify.plan();
    assert_eq!(plan.severity, EventSeverity::Warning);
    assert_eq!(plan.source, "verify:impl");
    assert_eq!(plan.message, "Deliverable verify: 4/5 passed for impl");
    assert_eq!(plan.broadcast_kind, "verify_event");
}

#[test]
fn audit_records_name_their_operation() {
    let audit = AuditStore::new();
    let r = audit.log_message("id1", "id2", MessageType::Direct, "msg-123", None);
    assert_eq!(r.operation, "message_sent");
    assert_eq!(r.message, "Agent id1 sent Direct message to id2");
    assert_eq!(r.fields[0], ("agent_id", "id1".to_string()));
    assert_eq!(r.fields.len(), 4);
    let r = audit.log_message("id1", "id2", MessageType::Handoff, "m", Some("t-1"));
    assert_eq!(r.fields[2], ("msg_type", "handoff".to_string()));
    assert_eq!(r.fields[4], ("task_id", "t-1".to_string()));

    let r = audit.log_agent_registered("id1", "coder", "coder");
    assert_eq!(r.operation, "agent_registered");
    assert_eq!(r.message, "Agent id1 (coder) registered as coder");
    assert_eq!(audit.log_agent_disconnected("id1").message, "Agent id1 disconnected");

    let r = audit.log_circuit_opened("a", 5);
    assert_eq!(r.severity, EventSeverity::Warning);
    assert_eq!(r.message, "Circuit breaker opened for agent a after 5 failures");
    assert_eq!(r.failure_count, Some(5));
    assert_eq!(audit.log_circuit_closed("a").message, "Circuit breaker closed for agent a");
    assert_eq!(audit.log_task_claimed("t", "a").message, "Task t claimed by agent a");
    let r = audit.log_event_ingested("magellan", "ci:github", EventType::CiStatus);
    assert_eq!(r.message, "Event ci_status ingested from ci:github for project magellan");
}

#[test]
fn error_messages_and_codes() {
    assert_eq!(EnvoyError::TooManyParts(21).message(), "too many parts: 21 exceeds 20 limit");
    assert_eq!(EnvoyError::MessageTooLarge(2_000_000).message(), "message too large: 2000000 bytes exceeds 1MB limit");
    let stale = EnvoyError::StaleAgent { agent_id: "a".into(), last_heartbeat: None, threshold_minutes: 5 };
    assert_eq!(stale.message(), "agent status stale: a (last heartbeat: None, threshold: 5m)");
    assert_eq!(stale.response_code(), (200, "STALE_AGENT"));
    let stale = EnvoyError::StaleAgent { agent_id: "a".into(), last_heartbeat: Some("t".into()), threshold_minutes: -1 };
    assert_eq!(stale.message(), "agent status stale: a (last heartbeat: Some(\"t\"), threshold: -1m)");
    let dup = EnvoyError::DuplicateDependency { dependent: "d".into(), blocker: "b".into() };
    assert_eq!(dup.message(), "dependency already exists: d is already waiting on b");
    assert_eq!(dup.response_code(), (409, "DUPLICATE_DEPENDENCY"));
    assert_eq!(EnvoyError::SubscriptionNotFound("a".into(), "p".into()).message(), "subscription not found: a for project p");
}

#[test]
fn heartbeat_nudges_name_each_dependent() {
    let dep = |d: &str| AgentDependency {
        dependency_id: "x".into(),
        dependent_agent: d.into(),
        blocker_agent: "b".into(),
        reason: "r".into(),
        created_at: "t".into(),
        resolved: false,
    };
    let nudges = heartbeat_nudges(&vec![dep("a1"), dep("a2")]);
    assert_eq!(nudges.len(), 2);
    assert_eq!(nudges[0].reason, "Dependent a1 may now be unblocked");
    assert_eq!(nudges[1].reason, "Dependent a2 may now be unblocked");
    assert_eq!(nudges[0].severity, NudgeSeverity::Info);
}

#[test]
fn hex_digests() {
    assert_eq!(hex16(0), "0000000000000000");
    assert_eq!(hex16(255), "00000000000000ff");
    assert_eq!(hex16(u64::MAX), "ffffffffffffffff");
    assert_eq!(hex16(0x0123_4567_89ab_cdef), "0123456789abcdef");
    let h = ahash_hex("payload");
    assert_eq!(h.len(), 16);
    assert!(h.chars().all(|c| c.is_ascii_hexdigit() && !c.is_ascii_uppercase()));
    assert_eq!(ahash_hex("payload"), h);
}
