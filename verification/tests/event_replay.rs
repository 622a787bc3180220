use envoy::atheneum_bridge::types::ProjectContextItem;
use envoy::event::bus::{DeliveryRecord, DeliveryTracker, EventBus, EventRecord};
use envoy::http::ws::{classify_inbound, connect_status, heartbeat_status, ws_step, WsAction, WsEvent, WsInbound, WsPhase};
use envoy::order::ordered_positions;
use envoy::status::{AgentState, AgentStatusSnapshot};
use envoy::time::{format_rfc3339, utc_now, UtcInstant};

fn stamp(t: UtcInstant) -> String {
    format_rfc3339(t).unwrap()
}

fn event(id: &str, project: &str, timestamp: &str) -> EventRecord {
    EventRecord { id: id.to_string(), project: project.to_string(), timestamp: timestamp.to_string() }
}

fn delivery(agent: &str, event_id: &str, at: &str) -> DeliveryRecord {
    DeliveryRecord { agent_id: agent.to_string(), event_id: event_id.to_string(), delivered_at: at.to_string() }
}

#[test]
fn delivery_tracker_records_and_queries_undelivered() {
    let tracker = DeliveryTracker::new();
    let now = utc_now();
    let events = vec![event("1", "magellan", &stamp(now))];
    let mut deliveries: Vec<DeliveryRecord> = Vec::new();

    // Before delivery: event should be undelivered
    let undelivered = tracker.undelivered_order(&events, &deliveries, "agent-1", "magellan", None, now);
    assert_eq!(undelivered.len(), 1);
    assert_eq!(events[undelivered[0]].id, "1");

    // Record delivery
    assert_eq!(tracker.delivery_name("agent-1", "1"), "dlv-agent-1-1");
    deliveries.push(delivery("agent-1", "1", &stamp(now)));

    // After delivery: event should not appear
    let undelivered = tracker.undelivered_order(&events, &deliveries, "agent-1", "magellan", None, now);
    assert!(undelivered.is_empty());

    // Other agent still hasn't received it
    let undelivered = tracker.undelivered_order(&events, &deliveries, "agent-2", "magellan", None, now);
    assert_eq!(undelivered.len(), 1);
}

#[test]
fn delivery_tracker_respects_project_boundary() {
    let tracker = DeliveryTracker::new();
    let now = utc_now();
    let events = vec![event("1", "envoy", &stamp(now))];
    let undelivered = tracker.undelivered_order(&events, &Vec::new(), "agent-1", "magellan", None, now);
    assert!(undelivered.is_empty());
}

#[test]
fn ingest_and_query_events() {
    let bus = EventBus::new();
    let now = utc_now();
    let events = vec![event("1", "magellan", &stamp(now)), event("2", "magellan", &stamp(now))];
    let results = bus.query_order(&events, "magellan", None, None, now);
    assert_eq!(results.len(), 2);
}

#[test]
fn filtered_by_project() {
    let bus = EventBus::new();
    let now = utc_now();
    let events = vec![event("1", "envoy", &stamp(now))];
    assert!(bus.query_order(&events, "magellan", None, None, now).is_empty());
    assert_eq!(bus.query_order(&events, "envoy", None, None, now).len(), 1);
}

#[test]
fn purge_old_events() {
    let bus = EventBus::new();
    let now = utc_now();
    let events = vec![event("1", "magellan", &stamp(now))];
    // New event should not be purged
    assert_eq!(bus.stale_events(&events, now).len(), 0);
}

#[test]
fn query_is_newest_first_and_limited() {
    let bus = EventBus::new();
    let now = UtcInstant { secs: 1_700_000_000, nanos: 0 };
    let events = vec![
        event("1", "p", "2024-01-01T00:00:00Z"),
        event("2", "p", "2024-01-03T00:00:00Z"),
        event("3", "q", "2024-01-05T00:00:00Z"),
        event("4", "p", "2024-01-02T00:00:00Z"),
    ];
    assert_eq!(bus.query_order(&events, "p", None, None, now), vec![1, 3, 0]);
    assert_eq!(bus.query_order(&events, "p", None, Some(2), now), vec![1, 3]);
    assert_eq!(bus.query_order(&events, "p", None, Some(-1), now), vec![1, 3, 0]);
    assert_eq!(bus.query_order(&events, "p", Some("2024-01-01T12:00:00Z"), None, now), vec![1, 3]);
    // an unreadable bound sets no bound
    assert_eq!(bus.query_order(&events, "p", Some("yesterday"), None, now), vec![1, 3, 0]);
}

#[test]
fn unreadable_timestamps_sort_as_now() {
    let bus = EventBus::new();
    let tracker = DeliveryTracker::new();
    let now = UtcInstant { secs: 1_800_000_000, nanos: 0 };
    let events = vec![event("1", "p", "garbage"), event("2", "p", "2024-01-03T00:00:00Z")];
    assert_eq!(bus.query_order(&events, "p", None, None, now), vec![0, 1]);
    assert_eq!(tracker.undelivered_order(&events, &Vec::new(), "a", "p", None, now), vec![1, 0]);
    // with a bound, an unreadable timestamp never passes it
    assert_eq!(bus.query_order(&events, "p", Some("2020-01-01T00:00:00Z"), None, now), vec![1]);
}

#[test]
fn stale_records_are_over_a_day_old() {
    let bus = EventBus::new();
    let tracker = DeliveryTracker::new();
    let now = UtcInstant { secs: 1_704_153_600, nanos: 0 }; // 2024-01-02T00:00:00Z
    let events = vec![
        event("1", "p", "2023-12-31T23:59:59Z"),
        event("2", "p", "2024-01-01T00:00:00Z"),
        event("3", "p", "not a time"),
    ];
    assert_eq!(bus.stale_events(&events, now), vec![0]);
    let deliveries = vec![delivery("a", "1", "2023-12-30T00:00:00Z"), delivery("a", "2", "2024-01-01T12:00:00Z")];
    assert_eq!(tracker.stale_deliveries(&deliveries, now), vec![0]);
    assert!(tracker.was_delivered(&deliveries, "a", "2"));
    assert!(!tracker.was_delivered(&deliveries, "b", "2"));
}

#[test]
fn ordered_positions_is_stable() {
    let keys: Vec<i128> = vec![3, 1, 3, 2, 1];
    let keep = vec![true, true, true, false, true];
    assert_eq!(ordered_positions(&keys, &keep, false, None), vec![1, 4, 0, 2]);
    assert_eq!(ordered_positions(&keys, &keep, true, None), vec![0, 2, 1, 4]);
    assert_eq!(ordered_positions(&keys, &keep, true, Some(0)), Vec::<usize>::new());
}

#[test]
fn websocket_frames_are_classified() {
    assert_eq!(classify_inbound(Some("heartbeat")), WsInbound::Heartbeat);
    assert_eq!(classify_inbound(Some("ping")), WsInbound::Ping);
    assert_eq!(classify_inbound(Some("subscribe")), WsInbound::Other);
    assert_eq!(classify_inbound(None), WsInbound::Other);
}

#[test]
fn websocket_status_on_connect_and_heartbeat() {
    let c = connect_status();
    assert_eq!(c.state, AgentState::Working);
    assert_eq!(c.checkpoint.as_deref(), Some("ws_connected"));
    let h = heartbeat_status(None);
    assert_eq!(h.state, AgentState::Working);
    assert_eq!(h.working_on, "heartbeat via WS");
    let reported = AgentStatusSnapshot {
        state: AgentState::Blocked,
        task_id: Some("t-1".to_string()),
        blocked_reason: Some("waiting".to_string()),
        waiting_on_agent: None,
        checkpoint: None,
        working_on: "x".to_string(),
    };
    let kept = heartbeat_status(Some(reported));
    assert_eq!(kept.state, AgentState::Blocked);
    assert_eq!(kept.task_id.as_deref(), Some("t-1"));
}

#[test]
fn project_context_item_defaults() {
    let item = ProjectContextItem::from_fields("entity-7", None, None, None, Some("from metadata"), None);
    assert_eq!(item.discovery_type, "Discovery");
    assert_eq!(item.target, "entity-7");
    assert_eq!(item.why, "from metadata");
    assert_eq!(item.agent, "unknown");
    let item = ProjectContextItem::from_fields("e", Some("Bug"), Some("src/a.rs"), Some("why"), Some("meta"), Some("coder"));
    assert_eq!(item.discovery_type, "Bug");
    assert_eq!(item.target, "src/a.rs");
    assert_eq!(item.why, "why");
    assert_eq!(item.agent, "coder");
}

#[test]
fn websocket_session_steps() {
    let (p, a) = ws_step(WsPhase::Opening, WsEvent::Opened);
    assert_eq!(p, WsPhase::Opening);
    assert_eq!(a, WsAction::CatchUp { message_limit: 100, include_acked: true, event_limit: 50 });
    assert_eq!(ws_step(WsPhase::Opening, WsEvent::CaughtUp), (WsPhase::Live, WsAction::AnnounceConnected));
    assert_eq!(ws_step(WsPhase::Opening, WsEvent::SendFailed), (WsPhase::Closed, WsAction::Unregister));
    assert_eq!(ws_step(WsPhase::Live, WsEvent::Pushed), (WsPhase::Live, WsAction::Forward));
    assert_eq!(
        ws_step(WsPhase::Live, WsEvent::Lagged(7)),
        (WsPhase::Live, WsAction::ReportLag { skipped: 7, replay_limit: 100, include_acked: false })
    );
    assert_eq!(ws_step(WsPhase::Live, WsEvent::Frame(WsInbound::Heartbeat)), (WsPhase::Live, WsAction::AckHeartbeat));
    assert_eq!(ws_step(WsPhase::Live, WsEvent::Frame(WsInbound::Ping)), (WsPhase::Live, WsAction::Pong));
    assert_eq!(ws_step(WsPhase::Live, WsEvent::Frame(WsInbound::Other)), (WsPhase::Live, WsAction::Nothing));
    assert_eq!(ws_step(WsPhase::Live, WsEvent::SocketClosed), (WsPhase::Closed, WsAction::Unregister));
    assert_eq!(ws_step(WsPhase::Closed, WsEvent::SocketClosed), (WsPhase::Closed, WsAction::Nothing));
}
