use envoy::assoc::StrMap;
use envoy::backfill::{
    classify_discovery_type, get_target, join_part_texts, known_agent, resolve_agent_name, system_discovery,
    BackfillOutcome, BackfillStats,
};
use envoy::cli::{bind_host, http_port, parse_flags, parse_monitor_setting, resolve_db_path};
use envoy::dashboard::{audit_agent_label, group_by_column, kanban_column, new_edge_positions, DashboardStats, TaskCard, TaskState};
use envoy::dependency::AgentDependency;
use envoy::error::EnvoyError;
use envoy::event::{EventSeverity, EventType};
use envoy::nudge::nudge_plan;
use envoy::status::AgentState;
use envoy::time::{format_rfc3339, parse_rfc3339, seconds_between, UtcInstant};

#[test]
fn flags_take_the_next_argument() {
    let args: Vec<String> = ["--port", "9000", "--db", "/tmp/x.db", "--verbose", "--bind"].iter().map(|s| s.to_string()).collect();
    let f = parse_flags(&args);
    assert_eq!(f.port.as_deref(), Some("9000"));
    assert_eq!(f.db.as_deref(), Some("/tmp/x.db"));
    assert!(f.bind.is_none());
    assert!(f.socket.is_none());
    assert!(f.atheneum.is_none());
}

#[test]
fn db_path_resolution() {
    assert_eq!(resolve_db_path(Some("a.db"), Some("b.db"), None, None), "a.db");
    assert_eq!(resolve_db_path(None, Some("b.db"), None, None), "b.db");
    assert_eq!(resolve_db_path(None, None, Some("/data"), Some("/home/u")), "/data/envoy/server.db");
    assert_eq!(resolve_db_path(None, None, Some("/data/"), None), "/data/envoy/server.db");
    assert_eq!(resolve_db_path(None, None, None, Some("/home/u")), "/home/u/.local/share/envoy/server.db");
    assert_eq!(resolve_db_path(None, None, None, None), "./envoy/server.db");
    assert_eq!(resolve_db_path(None, None, Some(""), None), "envoy/server.db");
}

#[test]
fn ports_and_bind_address() {
    assert_eq!(http_port(None, None), 9876);
    assert_eq!(http_port(Some("8080"), Some("7070")), 8080);
    assert_eq!(http_port(Some("x"), Some("7070")), 7070);
    assert_eq!(http_port(None, Some("70000")), 9876);
    assert_eq!(bind_host(None), "127.0.0.1");
    assert_eq!(bind_host(Some("0.0.0.0")), "0.0.0.0");
}

#[test]
fn monitor_settings() {
    assert_eq!(
        parse_monitor_setting("magellan,oldnordic/magellan,30", 60),
        Some(("magellan".to_string(), "oldnordic/magellan".to_string(), 30))
    );
    assert_eq!(parse_monitor_setting("p,r,soon", 300), Some(("p".to_string(), "r".to_string(), 300)));
    assert_eq!(parse_monitor_setting("p,r,1,2", 60), Some(("p".to_string(), "r".to_string(), 60)));
    assert_eq!(parse_monitor_setting("p,r", 60), None);
}

#[test]
fn dashboard_stats_from_counts() {
    let kinds = vec![("Agent".to_string(), 3usize), ("Discovery".to_string(), 7), ("Event".to_string(), 2)];
    let edges = vec![("a".to_string(), 4usize), ("b".to_string(), 5)];
    let labels = vec![Some("bug".to_string()), None, Some("bug".to_string()), Some("api".to_string())];
    let s = DashboardStats::from_counts(&kinds, &edges, &labels);
    assert_eq!((s.agents, s.discoveries, s.edges), (3, 7, 9));
    assert_eq!(s.discovery_types.get("bug"), Some(&2));
    assert_eq!(s.discovery_types.get("api"), Some(&1));
    assert_eq!(s.discovery_types.len(), 2);
}

#[test]
fn kanban_grouping() {
    assert_eq!(kanban_column(TaskState::Claimed), "TODO");
    assert_eq!(kanban_column(TaskState::WaitingReview), "IN_PROGRESS");
    assert_eq!(kanban_column(TaskState::Done), "DONE");
    let card = |id: &str, s: TaskState| TaskCard { id: id.into(), description: format!("task {id}"), state: s, claimed_by: None };
    let board = group_by_column(vec![card("1", TaskState::Proposed), card("2", TaskState::Done), card("3", TaskState::Claimed)]);
    let todo = board.get("TODO").unwrap();
    assert_eq!(todo.len(), 2);
    assert_eq!(todo[0].id, "1");
    assert_eq!(todo[1].id, "3");
    assert_eq!(todo[1].state, "TODO");
    assert_eq!(board.get("DONE").unwrap().len(), 1);
    assert!(board.get("IN_PROGRESS").is_none());
    assert_eq!(audit_agent_label(None), "unknown");
    assert_eq!(audit_agent_label(Some("id1".into())), "id1");
}

#[test]
fn edges_are_added_once() {
    let existing = vec!["1".to_string(), "2".to_string()];
    let candidates = vec!["2".to_string(), "3".to_string(), "3".to_string(), "4".to_string()];
    assert_eq!(new_edge_positions(&existing, &candidates), vec![1, 3]);
}

#[test]
fn backfill_helpers() {
    assert_eq!(classify_discovery_type("Code Review"), "code_review");
    assert_eq!(classify_discovery_type("git push"), "git_operation");
    assert_eq!(classify_discovery_type("Docs"), "documentation");
    assert_eq!(classify_discovery_type("Re: hello"), "response");
    assert_eq!(classify_discovery_type("hello"), "coordination");
    assert_eq!(get_target(Some("")), "agent-coordination");
    assert_eq!(get_target(None), "agent-coordination");
    assert_eq!(get_target(Some("ctx")), "ctx");
    assert_eq!(join_part_texts(&vec![None, Some("a".into()), None, Some("b".into())]), "a\nb");
    let mut agents: StrMap<envoy::backfill::KnownAgent> = StrMap::new();
    agents.insert("id1".into(), known_agent("id1".into(), Some("coder".into()), None));
    assert_eq!(resolve_agent_name("id1", &agents), "coder");
    assert_eq!(resolve_agent_name("id2", &agents), "id2");
    assert_eq!(agents.get("id1").unwrap().kind, "worker");
    assert_eq!(system_discovery(None, None, Some("p"), Some("c")), ("system_event".to_string(), "p".to_string()));
    let mut stats = BackfillStats::new();
    stats.record(BackfillOutcome::DirectStored);
    stats.record(BackfillOutcome::Failed);
    stats.record(BackfillOutcome::HandoffSeen);
    assert_eq!((stats.messages_processed, stats.discoveries_created, stats.errors, stats.handoffs_processed), (3, 1, 1, 1));
}

#[test]
fn nudge_texts() {
    let deps = vec![AgentDependency {
        dependency_id: "d".into(),
        dependent_agent: "id2".into(),
        blocker_agent: "id1".into(),
        reason: "r".into(),
        created_at: "t".into(),
        resolved: false,
    }];
    let plan = nudge_plan("id1", Some(AgentState::Blocked), 5, &deps, &vec!["task-9".to_string()]);
    assert_eq!(plan.reason, "No heartbeat for 5 minutes. Current status: \"blocked\"");
    assert_eq!(plan.blocker_status, "blocked");
    assert_eq!(plan.blocker_notices, vec![("id2".to_string(), "Your blocker (id1) may be stalled — no heartbeat for 5m".to_string())]);
    assert_eq!(plan.reclaim_notices, vec![("task-9".to_string(), "Task reclaimed — id1 is stale".to_string())]);
    let plan = nudge_plan("id1", None, -3, &vec![], &vec![]);
    assert_eq!(plan.reason, "No heartbeat for -3 minutes. Current status: \"unknown\"");
}

#[test]
fn event_names_roundtrip() {
    for t in [EventType::CiStatus, EventType::HookResult, EventType::GateResult, EventType::DocSync, EventType::TaskHandoff,
        EventType::GateBlock, EventType::GraphRefresh, EventType::TaskVerify, EventType::AuditLog] {
        assert_eq!(EventType::parse(t.as_str()).unwrap(), t);
    }
    assert!(matches!(EventType::parse("nope"), Err(EnvoyError::InvalidMessage(ref m)) if m == "unknown event type: nope"));
    assert_eq!(EventSeverity::from_label("warning"), EventSeverity::Warning);
    assert_eq!(EventSeverity::from_label("whatever"), EventSeverity::Info);
    assert_eq!(EventSeverity::from_label(EventSeverity::Blocking.as_str()), EventSeverity::Blocking);
}

#[test]
fn error_codes() {
    assert_eq!(EnvoyError::AgentNotFound("x".into()).response_code(), (404, "AGENT_NOT_FOUND"));
    assert_eq!(EnvoyError::TooManyParts(3).response_code(), (400, "TOO_MANY_PARTS"));
    assert_eq!(EnvoyError::NotTaskClaimant { agent: "a".into(), task_id: "t".into() }.response_code(), (403, "NOT_TASK_CLAIMANT"));
    assert_eq!(EnvoyError::WsError("w".into()).response_code(), (500, "INTERNAL_ERROR"));
}

#[test]
fn rfc3339_roundtrip_and_differences() {
    let t = UtcInstant { secs: 1_767_225_600, nanos: 0 };
    let text = format_rfc3339(t).unwrap();
    assert_eq!(text, "2026-01-01T00:00:00+00:00");
    assert_eq!(parse_rfc3339(&text), Some(t));
    assert_eq!(parse_rfc3339("2026-01-01T01:00:00+01:00"), Some(t));
    assert_eq!(parse_rfc3339("not a time"), None);
    let later = UtcInstant { secs: 1_767_225_661, nanos: 500 };
    assert_eq!(seconds_between(later, t), 61);
    assert_eq!(seconds_between(t, later), -61);
}

#[test]
fn representable_instants_format_and_others_do_not() {
    let at = |secs: i64, nanos: u32| format_rfc3339(UtcInstant { secs, nanos });
    assert_eq!(at(0, 0).as_deref(), Some("1970-01-01T00:00:00+00:00"));
    assert!(at(0, 1_500_000_000).is_none());
    assert!(at(59, 1_500_000_000).is_some());
    assert!(at(59, 2_000_000_000).is_none());
    assert!(at(8_210_266_876_799, 0).is_some());
    assert!(at(8_210_266_876_800, 0).is_none());
    assert!(at(-8_334_601_228_800, 0).is_some());
    assert!(at(-8_334_601_228_801, 0).is_none());
}
