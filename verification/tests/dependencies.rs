use envoy::dependency::{AgentDependency, DependencyStore};
use envoy::error::EnvoyError;

fn dep(id: &str, dependent: &str, blocker: &str, resolved: bool) -> AgentDependency {
    AgentDependency {
        dependency_id: id.into(),
        dependent_agent: dependent.into(),
        blocker_agent: blocker.into(),
        reason: "waiting for fix".into(),
        created_at: "2026-01-01T00:00:00Z".into(),
        resolved,
    }
}

#[test]
fn create_and_find_dependency() {
    let store = DependencyStore::new();
    let mut deps = Vec::new();
    let created = store
        .create(&deps, "agent-a".into(), "agent-b".into(), "waiting".into(), "d1".into(), "2026-01-01T00:00:00Z".into())
        .unwrap();
    assert_eq!(created.dependent_agent, "agent-a");
    assert_eq!(created.blocker_agent, "agent-b");
    assert_eq!(created.reason, "waiting");
    assert!(!created.resolved);
    assert!(!created.dependency_id.is_empty());
    deps.push(created);

    let by_blocker = store.find_by_blocker(&deps, "agent-b");
    assert_eq!(by_blocker.len(), 1);
    assert_eq!(by_blocker[0].dependent_agent, "agent-a");

    let by_dependent = store.find_by_dependent(&deps, "agent-a");
    assert_eq!(by_dependent.len(), 1);
}

#[test]
fn resolve_dependency() {
    let store = DependencyStore::new();
    let mut deps = vec![dep("d1", "agent-a", "agent-b", false)];
    let resolved = store.resolve(&deps, "d1").unwrap();
    assert!(resolved.resolved);
    assert_eq!(resolved.dependency_id, "d1");
    assert_eq!(resolved.dependent_agent, "agent-a");
    deps[0] = resolved;
    let by_blocker = store.find_by_blocker(&deps, "agent-b");
    assert!(by_blocker.is_empty());
    // once resolved, the same pair may depend again
    assert!(store.check_create(&deps, "agent-a", "agent-b").is_ok());
}

#[test]
fn reject_duplicate_dependency() {
    let store = DependencyStore::new();
    let deps = vec![dep("d1", "a", "b", false)];
    let result = store.check_create(&deps, "a", "b");
    assert!(matches!(result, Err(EnvoyError::DuplicateDependency { ref dependent, ref blocker }) if dependent == "a" && blocker == "b"));
    let created = store.create(&deps, "a".into(), "b".into(), "again".into(), "d2".into(), "t".into());
    assert!(matches!(created, Err(EnvoyError::DuplicateDependency { .. })));
    let own = store.create(&deps, "a".into(), "a".into(), "x".into(), "d3".into(), "t".into());
    assert!(matches!(own, Err(EnvoyError::InvalidEntity(ref m)) if m == "cannot depend on self"));
}

#[test]
fn reject_self_dependency() {
    let store = DependencyStore::new();
    let result = store.check_create(&Vec::new(), "a", "a");
    assert!(matches!(result, Err(EnvoyError::InvalidEntity(ref m)) if m == "cannot depend on self"));
}

#[test]
fn dependency_queries_keep_order() {
    let store = DependencyStore::new();
    let deps = vec![dep("d1", "x", "b", false), dep("d2", "y", "c", false), dep("d3", "z", "b", false)];
    let found = store.find_by_blocker(&deps, "b");
    let ids: Vec<&str> = found.iter().map(|d| d.dependency_id.as_str()).collect();
    assert_eq!(ids, vec!["d1", "d3"]);
}

#[test]
fn resolving_an_unknown_dependency_is_not_found() {
    let store = DependencyStore::new();
    let deps = vec![dep("d1", "a", "b", false), dep("d2", "a", "c", false)];
    assert!(matches!(store.resolve(&deps, "d9"), Err(EnvoyError::DependencyNotFound(ref id)) if id == "d9"));
    let second = store.resolve(&deps, "d2").unwrap();
    assert_eq!(second.blocker_agent, "c");
    assert!(second.resolved);
}
