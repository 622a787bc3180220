use envoy::assoc::StrMap;
use envoy::audit::{AuditEntry, AuditStore, AUDIT_PROJECT};
use envoy::error::EnvoyError;
use envoy::event::EventSeverity;
use envoy::monitor::{ci_transition, doc_staleness, ProjectConfig, ProjectConfigRecord, ProjectConfigStore, SubscriptionStore};

#[test]
fn subscribe_and_list() {
    let store = SubscriptionStore::new();
    let mut records = Vec::new();
    let rec = store.subscribe(&records, "agent-1", "magellan").unwrap();
    assert_eq!(rec.name, "sub-agent-1-magellan");
    records.push(rec);
    let subs = store.list(&records, "agent-1");
    assert!(subs.contains(&"magellan".to_string()));
    let subscribers = store.subscribers(&records, "magellan");
    assert!(subscribers.contains(&"agent-1".to_string()));
    // subscribing again changes nothing
    assert!(store.subscribe(&records, "agent-1", "magellan").is_none());
}

#[test]
fn unsubscribe() {
    let store = SubscriptionStore::new();
    let mut records = Vec::new();
    records.push(store.subscribe(&records, "agent-1", "magellan").unwrap());
    let idx = store.unsubscribe(&records, "agent-1", "magellan").unwrap();
    records.remove(idx);
    assert!(store.list(&records, "agent-1").is_empty());
    let err = store.unsubscribe(&records, "agent-1", "magellan").unwrap_err();
    assert!(matches!(err, EnvoyError::SubscriptionNotFound(ref a, ref p) if a == "agent-1" && p == "magellan"));
}

#[test]
fn project_config_crud() {
    let store = ProjectConfigStore::new();
    let cfg = ProjectConfig {
        project: "magellan".into(),
        ci_poll_seconds: 30,
        doc_poll_seconds: 120,
        ci_repo_owner: "oldnordic/magellan".into(),
        doc_files: vec!["CHANGELOG.md".into()],
    };
    assert_eq!(store.record_name(&cfg.project), "cfg-magellan");
    // what set stores, get reads back
    let stored = ProjectConfigRecord {
        project: cfg.project.clone(),
        ci_poll_seconds: Some(cfg.ci_poll_seconds),
        doc_poll_seconds: Some(cfg.doc_poll_seconds),
        ci_repo_owner: cfg.ci_repo_owner.clone(),
        doc_files: cfg.doc_files.clone(),
    };
    let got = store.get(Some(stored), "magellan").unwrap();
    assert_eq!(got.ci_poll_seconds, 30);
    assert_eq!(got.doc_files, vec!["CHANGELOG.md"]);
}

#[test]
fn project_config_defaults_and_missing() {
    let store = ProjectConfigStore::new();
    let rec = ProjectConfigRecord {
        project: "p".into(),
        ci_poll_seconds: None,
        doc_poll_seconds: None,
        ci_repo_owner: String::new(),
        doc_files: vec![],
    };
    let got = store.get(Some(rec), "p").unwrap();
    assert_eq!((got.ci_poll_seconds, got.doc_poll_seconds), (60, 300));
    let d = ProjectConfig::default();
    assert_eq!((d.ci_poll_seconds, d.doc_poll_seconds), (60, 300));
    assert!(matches!(store.get(None, "q"), Err(EnvoyError::ProjectConfigNotFound(ref p)) if p == "q"));
}

#[test]
fn ci_monitor_reports_changes_once() {
    let mut cache: StrMap<String> = StrMap::new();
    let c = ci_transition(&mut cache, "123", "in_progress").unwrap();
    assert_eq!(c.severity, EventSeverity::Info);
    assert_eq!(c.summary, "CI 123: in_progress");
    assert!(ci_transition(&mut cache, "123", "in_progress").is_none());
    let c = ci_transition(&mut cache, "123", "failure").unwrap();
    assert_eq!(c.severity, EventSeverity::Blocking);
    assert_eq!(c.summary, "CI 123: failure");
    let c = ci_transition(&mut cache, "124", "success").unwrap();
    assert_eq!(c.severity, EventSeverity::Info);
}

#[test]
fn doc_monitor_alerts_daily() {
    let now = 1_700_000_000;
    assert!(doc_staleness(now, now - 200_000, now - 3600).is_none());
    let a = doc_staleness(now, now - 200_000, now - 100_000).unwrap();
    assert_eq!(a.severity, EventSeverity::Info);
    assert_eq!(a.age_seconds, 100_000);
    assert_eq!(a.summary, "Documentation last touched 100000s ago");
    let w = doc_staleness(now, now - 200_000, now - 700_000).unwrap();
    assert_eq!(w.severity, EventSeverity::Warning);
    // alerted an hour ago: no new alert
    assert!(doc_staleness(now, now - 3600, now - 700_000).is_none());
}

fn entry(id: &str, op: &str, agent: Option<&str>, task: Option<&str>) -> AuditEntry {
    AuditEntry { id: id.into(), operation: op.into(), agent_id: agent.map(String::from), task_id: task.map(String::from) }
}

#[test]
fn audit_log_message_roundtrips() {
    let audit = AuditStore::new();
    let records = vec![entry("e1", "message_sent", Some("id1"), None)];
    let found = audit.filter(records, Some("id1"), None, None);
    assert_eq!(found.len(), 1);
    assert_eq!(found[0].operation, "message_sent");
    assert_eq!(found[0].agent_id.as_deref(), Some("id1"));
    assert_eq!(AUDIT_PROJECT, "_envoy_audit");
}

#[test]
fn audit_filter_by_operation() {
    let audit = AuditStore::new();
    let records = vec![entry("e1", "agent_registered", Some("id1"), None), entry("e2", "agent_disconnected", Some("id1"), None)];
    let registered = audit.filter(
        records.iter().map(|e| e.clone()).collect(),
        Some("id1"),
        Some("agent_registered"),
        None,
    );
    assert_eq!(registered.len(), 1);

    let all = audit.filter(records, Some("id1"), None, None);
    assert_eq!(all.len(), 2);
}

#[test]
fn audit_filter_by_task_drops_records_without_one() {
    let audit = AuditStore::new();
    let records = vec![entry("e1", "task_claimed", Some("id1"), Some("t1")), entry("e2", "message_sent", Some("id1"), None)];
    let found = audit.filter(records, None, None, Some("t1"));
    assert_eq!(found.len(), 1);
    assert_eq!(found[0].id, "e1");
}
