use envoy::agent::{AgentInfo, AgentLifecycle, AgentRegistry};
use envoy::error::EnvoyError;
use envoy::status::{AgentState, AgentStatusSnapshot};
use envoy::time::UtcInstant;

fn test_registry() -> AgentRegistry {
    AgentRegistry::new(Vec::new(), 0)
}

/// The registry as a restart loads it back from what it stored.
fn reload(reg: &AgentRegistry) -> AgentRegistry {
    AgentRegistry::new(reg.list_all(), reg.next_id())
}

#[test]
fn register_root_agents() {
    let mut reg = test_registry();
    let a1 = reg.register("coder", "coder", None).unwrap();
    let a2 = reg.register("hermes", "hermes", None).unwrap();

    assert_eq!(a1.agent_id, "id1");
    assert_eq!(a2.agent_id, "id2");
    assert!(a1.parent_id.is_none());
}

#[test]
fn register_subagents_with_hierarchy() {
    let mut reg = test_registry();
    let parent = reg.register("coder", "coder", None).unwrap();
    let child1 = reg.register("sub1", "coder", Some(parent.agent_id.clone())).unwrap();
    let child2 = reg.register("sub2", "coder", Some(parent.agent_id.clone())).unwrap();
    let grandchild = reg.register("subsub", "coder", Some(child1.agent_id.clone())).unwrap();

    assert_eq!(child1.agent_id, "id1.1");
    assert_eq!(child2.agent_id, "id1.2");
    assert_eq!(grandchild.agent_id, "id1.1.1");

    let children = reg.get_children(&parent.agent_id).unwrap();
    assert_eq!(children.len(), 2);

    let grandkids = reg.get_children(&child1.agent_id).unwrap();
    assert_eq!(grandkids.len(), 1);
}

#[test]
fn disconnect_cascades_to_descendants() {
    let mut reg = test_registry();
    let parent = reg.register("coder", "coder", None).unwrap();
    let child = reg.register("sub", "coder", Some(parent.agent_id.clone())).unwrap();
    let _grandchild = reg.register("subsub", "coder", Some(child.agent_id.clone())).unwrap();

    let affected = reg.disconnect(&parent.agent_id).unwrap();
    assert_eq!(affected.len(), 3);
    assert!(!reg.is_active(&parent.agent_id));
    assert!(!reg.is_active(&child.agent_id));
}

#[test]
fn subagent_requires_active_parent() {
    let mut reg = test_registry();
    let parent = reg.register("coder", "coder", None).unwrap();
    let pid = parent.agent_id.clone();
    reg.retire(&pid).unwrap();

    let err = reg.register("sub", "coder", Some(pid)).unwrap_err();
    assert!(matches!(err, EnvoyError::AgentOffline(_)));
}

#[test]
fn same_name_creates_new_agent() {
    let mut reg = test_registry();
    let a1 = reg.register("coder", "coder", None).unwrap();
    let a2 = reg.register("coder", "coder", None).unwrap();
    assert_ne!(a1.agent_id, a2.agent_id, "same name should create a new agent, not reclaim");
    assert!(reg.is_active(&a1.agent_id), "original agent should still be active");
    assert!(reg.is_active(&a2.agent_id), "new agent should be active");
}

#[test]
fn retire_cascades_to_descendants() {
    let mut reg = test_registry();
    let parent = reg.register("coder", "coder", None).unwrap();
    let child = reg.register("sub", "coder", Some(parent.agent_id.clone())).unwrap();

    let affected = reg.retire(&parent.agent_id).unwrap();
    assert_eq!(affected.len(), 2);
    assert!(!reg.is_active(&parent.agent_id));
    assert!(!reg.is_active(&child.agent_id));
}

#[test]
fn retired_id_cannot_be_reused() {
    let mut reg = test_registry();
    let a1 = reg.register("coder", "coder", None).unwrap();
    reg.retire(&a1.agent_id).unwrap();
    // The retired agent's ID still exists but is not active
    let info = reg.get(&a1.agent_id).unwrap();
    assert_eq!(info.lifecycle, AgentLifecycle::Retired);
}

#[test]
fn persistence_survives_restart() {
    // First session: register some agents
    let mut reg = test_registry();
    let parent = reg.register("coder", "coder", None).unwrap();
    reg.register("sub", "sub", Some(parent.agent_id.clone())).unwrap();
    reg.retire(&parent.agent_id).unwrap();

    // Second session: reload from what was stored
    let reg2 = reload(&reg);
    drop(reg);
    let all = reg2.list_all();
    assert_eq!(all.len(), 2, "two agents should survive restart");

    // All agents start retired after reload
    for a in &all {
        assert!(a.lifecycle == AgentLifecycle::Retired, "agents should be retired after restart");
    }

    let parent = all.iter().find(|a| a.agent_id == "id1").unwrap();
    assert_eq!(parent.name, "coder");

    let children = reg2.get_children("id1").unwrap();
    assert_eq!(children.len(), 1);
    assert_eq!(children[0].agent_id, "id1.1");
}

#[test]
fn next_id_counter_persists() {
    // Register 3 root agents
    let mut reg = test_registry();
    reg.register("a1", "test", None).unwrap();
    reg.register("a2", "test", None).unwrap();
    reg.register("a3", "test", None).unwrap();

    // Restart: next agent should be id4, not id1
    let mut reg = reload(&reg);
    let a4 = reg.register("a4", "test", None).unwrap();
    assert_eq!(a4.agent_id, "id4");
}

#[test]
fn heartbeat_updates_status() {
    let mut registry = test_registry();

    let info = registry.register("test1", "worker", None).unwrap();
    let status = AgentStatusSnapshot {
        state: AgentState::Working,
        task_id: Some("task-1".into()),
        blocked_reason: None,
        waiting_on_agent: None,
        checkpoint: Some("implementation".into()),
        working_on: "building heartbeat".into(),
    };
    registry.heartbeat(&info.agent_id, status.clone()).unwrap();

    let updated = registry.get(&info.agent_id).unwrap();
    assert!(updated.last_heartbeat_at.is_some());
    assert_eq!(updated.status.as_ref().unwrap().state.as_str(), "working");
    assert!(registry.is_active(&info.agent_id), "heartbeat must keep agent active");
}

#[test]
fn heartbeat_reactivates_retired_agent_after_restart() {
    // First session: register an agent
    let mut reg = test_registry();
    let info = reg.register("agent1", "worker", None).unwrap();
    assert_eq!(info.lifecycle, AgentLifecycle::Active);

    // Second session: reload — agent starts retired
    let mut reg2 = reload(&reg);
    drop(reg);
    let reloaded = reg2.get(&info.agent_id).unwrap();
    assert!(reloaded.lifecycle == AgentLifecycle::Retired, "agents start retired after restart");

    // Heartbeat brings agent back to active
    let status = AgentStatusSnapshot {
        state: AgentState::Working,
        task_id: None,
        blocked_reason: None,
        waiting_on_agent: None,
        checkpoint: None,
        working_on: "reconnected".into(),
    };
    reg2.heartbeat(&info.agent_id, status).unwrap();

    let after_hb = reg2.get(&info.agent_id).unwrap();
    assert!(after_hb.lifecycle == AgentLifecycle::Active, "heartbeat must bring agent active after restart");
    assert!(after_hb.last_heartbeat_at.is_some());
}

#[test]
fn get_stale_agents_finds_stale() {
    let mut registry = test_registry();

    let info = registry.register("stale1", "worker", None).unwrap();
    // Never sends heartbeat — should be stale
    let stale = registry.get_stale_agents(0); // threshold=0 means immediately stale
    assert!(stale.iter().any(|a| a.agent_id == info.agent_id));
}

#[test]
fn get_stale_agents_excludes_retired() {
    let registry = test_registry();
    // No active agents — empty
    let stale = registry.get_stale_agents(0);
    assert!(stale.is_empty());
}

#[test]
fn heartbeat_unknown_agent_is_not_found() {
    let mut reg = test_registry();
    let err = reg.heartbeat("id9", AgentStatusSnapshot::default()).unwrap_err();
    assert!(matches!(err, EnvoyError::AgentNotFound(ref id) if id == "id9"));
}

#[test]
fn register_under_unknown_parent_is_not_found() {
    let mut reg = test_registry();
    let err = reg.register("sub", "coder", Some("id7".into())).unwrap_err();
    assert!(matches!(err, EnvoyError::AgentNotFound(ref id) if id == "id7"));
}

#[test]
fn check_send_rules() {
    let mut reg = test_registry();
    let a = reg.register("a", "coder", None).unwrap();
    let b = reg.register("b", "coder", None).unwrap();
    assert!(reg.check_send(&a.agent_id, &b.agent_id).is_ok());
    assert!(matches!(reg.check_send("id9", &b.agent_id), Err(EnvoyError::AgentNotFound(ref id)) if id == "id9"));
    assert!(matches!(reg.check_send(&a.agent_id, "id9"), Err(EnvoyError::AgentNotFound(ref id)) if id == "id9"));
    assert!(matches!(reg.check_send(&a.agent_id, &a.agent_id), Err(EnvoyError::InvalidMessage(ref m)) if m == "cannot send message to self"));
    reg.retire(&a.agent_id).unwrap();
    assert!(matches!(reg.check_send(&a.agent_id, &b.agent_id), Err(EnvoyError::AgentOffline(_))));
}

#[test]
fn stale_and_purge_with_explicit_clock() {
    let mut reg = test_registry();
    let a = reg.register("a", "w", None).unwrap();
    reg.heartbeat_at(&a.agent_id, AgentStatusSnapshot::default(), "2026-01-01T00:00:00Z".into()).unwrap();
    let ten_min_later = UtcInstant { secs: 1_767_225_600 + 600, nanos: 0 };
    assert_eq!(reg.get_stale_agents_at(5, ten_min_later).len(), 1);
    assert_eq!(reg.get_stale_agents_at(15, ten_min_later).len(), 0);
    reg.retire(&a.agent_id).unwrap();
    let two_days_later = UtcInstant { secs: 1_767_225_600 + 2 * 86_400, nanos: 0 };
    assert_eq!(reg.purge_retired_at(24, two_days_later), 1);
    assert!(reg.list_all().is_empty());
}

#[test]
fn child_ids_are_not_reused_after_a_purge() {
    let mut reg = test_registry();
    let p = reg.register("lead", "w", None).unwrap();
    let c1 = reg.register("c1", "w", Some(p.agent_id.clone())).unwrap();
    let c2 = reg.register("c2", "w", Some(p.agent_id.clone())).unwrap();
    assert_eq!(c1.agent_id, "id1.1");
    assert_eq!(c2.agent_id, "id1.2");
    reg.heartbeat_at(&c1.agent_id, AgentStatusSnapshot::default(), "2026-01-01T00:00:00Z".into()).unwrap();
    reg.retire(&c1.agent_id).unwrap();
    let two_days_later = UtcInstant { secs: 1_767_225_600 + 2 * 86_400, nanos: 0 };
    assert_eq!(reg.purge_retired_at(24, two_days_later), 1);
    assert_eq!(reg.children_issued(&p.agent_id), 2);
    let c3 = reg.register("c3", "w", Some(p.agent_id.clone())).unwrap();
    assert_eq!(c3.agent_id, "id1.3");
    assert_eq!(reg.get(&c2.agent_id).unwrap().name, "c2");
    assert_eq!(reg.list_all().len(), 3);
}

#[test]
fn loading_moves_the_counters_past_stored_ids() {
    let mut reg = test_registry();
    let p = reg.register("lead", "w", None).unwrap();
    for _ in 0..5 {
        reg.register("sub", "w", Some(p.agent_id.clone())).unwrap();
    }
    // a store that lost the counter record still hands out fresh IDs
    let mut reg2 = AgentRegistry::new(reg.list_all(), 0);
    assert_eq!(reg2.next_id(), 1);
    assert_eq!(reg2.children_issued("id1"), 5);
    assert_eq!(reg2.register("other", "w", None).unwrap().agent_id, "id2");
    reg2.heartbeat_at("id1", AgentStatusSnapshot::default(), "2026-01-01T00:00:00Z".into()).unwrap();
    assert_eq!(reg2.register("sub", "w", Some("id1".into())).unwrap().agent_id, "id1.6");
    assert_eq!(reg2.list_all().len(), 8);
}

#[test]
fn listing_follows_registration_order() {
    let mut reg = test_registry();
    let a = reg.register("a", "w", None).unwrap();
    let b = reg.register("b", "w", None).unwrap();
    let c = reg.register("c", "w", Some(a.agent_id.clone())).unwrap();
    let ids: Vec<String> = reg.list_all().into_iter().map(|i| i.agent_id).collect();
    assert_eq!(ids, vec![a.agent_id.clone(), b.agent_id.clone(), c.agent_id.clone()]);
    assert!(reg.register("d", "w", Some("id9".into())).is_err());
    assert_eq!(reg.list_all().len(), 3);
}

#[test]
fn loaded_records_link_to_their_parents_whatever_their_ids() {
    let rec = |id: &str, parent: Option<&str>| AgentInfo {
        agent_id: id.into(),
        name: id.into(),
        kind: "w".into(),
        parent_id: parent.map(|p| p.to_string()),
        lifecycle: AgentLifecycle::Active,
        status: None,
        last_heartbeat_at: None,
    };
    // a chain of one-letter IDs: e under d under c under b under a
    let recs = vec![
        rec("a", None),
        rec("b", Some("a")),
        rec("c", Some("b")),
        rec("d", Some("c")),
        rec("e", Some("d")),
        rec("x", Some("abc")),
    ];
    let mut reg = AgentRegistry::new(recs, 0);
    assert_eq!(reg.list_all().len(), 6);
    assert!(reg.list_all().iter().all(|a| a.lifecycle == AgentLifecycle::Retired));
    assert_eq!(reg.get_children("a").unwrap()[0].agent_id, "b");
    assert_eq!(reg.get_children("d").unwrap()[0].agent_id, "e");
    let ids = reg.retire("a").unwrap();
    assert_eq!(ids, vec!["a", "b", "c", "d", "e"]);
}

#[test]
fn n_root_registrations_list_n_agents_in_order() {
    let mut reg = test_registry();
    for i in 0..4 {
        reg.register(&format!("a{i}"), "w", None).unwrap();
    }
    let all = reg.list_all();
    assert_eq!(all.len(), 4);
    for (i, a) in all.iter().enumerate() {
        assert_eq!(a.agent_id, format!("id{}", i + 1));
        assert_eq!(a.name, format!("a{i}"));
        assert_eq!(a.lifecycle, AgentLifecycle::Active);
    }
}

#[test]
fn children_are_the_direct_children_only() {
    let mut reg = test_registry();
    let p = reg.register("p", "w", None).unwrap();
    let c = reg.register("c", "w", Some(p.agent_id.clone())).unwrap();
    let _g = reg.register("g", "w", Some(c.agent_id.clone())).unwrap();
    let kids = reg.get_children(&p.agent_id).unwrap();
    assert_eq!(kids.len(), 1);
    assert_eq!(kids[0].agent_id, c.agent_id);
    assert_eq!(reg.get(&c.agent_id).unwrap().agent_id, c.agent_id);
}
