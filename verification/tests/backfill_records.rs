use envoy::assoc::StrMap;
use envoy::backfill::{direct_discovery, known_agent, truncate_text, KnownAgent};

#[test]
fn truncate_text_cuts_bytes_and_marks() {
    assert_eq!(truncate_text("hello", 10), "hello");
    assert_eq!(truncate_text("hello", 5), "hello");
    assert_eq!(truncate_text("hello world", 5), "hello...[truncated]");
    // "é" is two bytes: a cut after it falls on a boundary
    assert_eq!(truncate_text("éa", 2), "é...[truncated]");
}

#[test]
fn direct_message_becomes_discovery() {
    let mut agents: StrMap<KnownAgent> = StrMap::new();
    agents.insert("id1".into(), known_agent("id1".into(), Some("coder".into()), None));
    let d = direct_discovery("id1", "id2", None, "found a bug", &agents);
    assert_eq!(d.from_name, "coder");
    assert_eq!(d.to_name, "id2");
    assert_eq!(d.target, "agent-coordination");
    assert_eq!(d.content, "found a bug");
    assert!(!d.truncated);
    assert_eq!(d.discovery_type, "coordination");

    let long = "x".repeat(10001);
    let d = direct_discovery("id3", "id1", Some("src/lib.rs"), &long, &agents);
    assert_eq!(d.from_name, "id3");
    assert_eq!(d.to_name, "coder");
    assert_eq!(d.target, "src/lib.rs");
    assert!(d.truncated);
    assert_eq!(d.content.len(), 10000 + "...[truncated]".len());
}
