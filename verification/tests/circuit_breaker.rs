use envoy::circuit::{CanDeliver, CircuitBreaker, CircuitConfig};
use envoy::time::UtcInstant;

fn test_breaker() -> CircuitBreaker {
    CircuitBreaker::new(CircuitConfig { failure_threshold: 3, cooldown_seconds: 60 })
}

fn breaker_with_cooldown() -> CircuitBreaker {
    CircuitBreaker::new(CircuitConfig { failure_threshold: 3, cooldown_seconds: 60 })
}

fn at(secs: i64) -> UtcInstant {
    UtcInstant { secs, nanos: 0 }
}

#[test]
fn starts_closed() {
    let mut cb = test_breaker();
    assert_eq!(cb.check("agent1"), CanDeliver::Yes);
}

#[test]
fn stays_closed_below_threshold() {
    let mut cb = test_breaker();
    cb.record_failure("agent1");
    cb.record_failure("agent1");
    assert_eq!(cb.check("agent1"), CanDeliver::Yes);
}

#[test]
fn opens_at_threshold() {
    let mut cb = test_breaker();
    cb.record_failure("agent1");
    cb.record_failure("agent1");
    cb.record_failure("agent1");
    assert_eq!(cb.check("agent1"), CanDeliver::No);
    let status = cb.get_state("agent1");
    assert_eq!(status.state, "open");
}

#[test]
fn half_open_after_cooldown() {
    let mut cb = breaker_with_cooldown();
    let t0 = at(1_700_000_000);
    cb.record_failure_at("agent1", t0);
    cb.record_failure_at("agent1", t0);
    cb.record_failure_at("agent1", t0);
    assert_eq!(cb.check_at("agent1", t0), CanDeliver::No);
    // 120 seconds later the cooldown has expired
    assert_eq!(cb.check_at("agent1", at(1_700_000_120)), CanDeliver::Probe);
}

#[test]
fn half_open_success_closes() {
    let mut cb = test_breaker();
    let t0 = at(1_700_000_000);
    for _ in 0..3 {
        cb.record_failure_at("agent1", t0);
    }
    assert_eq!(cb.check_at("agent1", at(1_700_000_120)), CanDeliver::Probe);
    assert_eq!(cb.get_state("agent1").state, "half_open");
    cb.record_success("agent1");
    assert_eq!(cb.check("agent1"), CanDeliver::Yes);
    let status = cb.get_state("agent1");
    assert_eq!(status.failures, 0);
}

#[test]
fn half_open_failure_reopens() {
    let mut cb = breaker_with_cooldown();
    let t0 = at(1_700_000_000);
    for _ in 0..3 {
        cb.record_failure_at("agent1", t0);
    }
    assert_eq!(cb.check_at("agent1", at(1_700_000_120)), CanDeliver::Probe);
    cb.record_failure_at("agent1", at(1_700_000_121));
    assert_eq!(cb.check_at("agent1", at(1_700_000_122)), CanDeliver::No);
}

#[test]
fn heartbeat_resets_closed() {
    let mut cb = test_breaker();
    cb.record_failure("agent1");
    cb.record_failure("agent1");
    cb.record_failure("agent1");
    assert_eq!(cb.check("agent1"), CanDeliver::No);

    cb.reset("agent1");
    assert_eq!(cb.check("agent1"), CanDeliver::Yes);
    assert_eq!(cb.get_state("agent1").failures, 0);
}

#[test]
fn heartbeat_resets_open() {
    let mut cb = breaker_with_cooldown();
    cb.record_failure("agent1");
    cb.record_failure("agent1");
    cb.record_failure("agent1");
    assert_eq!(cb.check("agent1"), CanDeliver::No);

    cb.reset("agent1");
    assert_eq!(cb.check("agent1"), CanDeliver::Yes);
}

#[test]
fn heartbeat_resets_half_open() {
    let mut cb = breaker_with_cooldown();
    let t0 = at(1_700_000_000);
    for _ in 0..3 {
        cb.record_failure_at("agent1", t0);
    }
    assert_eq!(cb.check_at("agent1", at(1_700_000_120)), CanDeliver::Probe);
    cb.reset("agent1");
    assert_eq!(cb.check("agent1"), CanDeliver::Yes);
}

#[test]
fn different_agents_independent() {
    let mut cb = test_breaker();
    cb.record_failure("agent1");
    cb.record_failure("agent1");
    cb.record_failure("agent1");
    assert_eq!(cb.check("agent1"), CanDeliver::No);
    assert_eq!(cb.check("agent2"), CanDeliver::Yes);
}

#[test]
fn remove_clears_state() {
    let mut cb = test_breaker();
    cb.record_failure("agent1");
    cb.record_failure("agent1");
    cb.record_failure("agent1");
    cb.remove("agent1");
    assert_eq!(cb.check("agent1"), CanDeliver::Yes);
}

#[test]
fn list_active_skips_healthy() {
    let mut cb = test_breaker();
    cb.record_failure("agent1");
    cb.record_failure("agent1");
    cb.record_failure("agent1");
    let active = cb.list_active();
    assert_eq!(active.len(), 1);
    assert_eq!(active[0].agent_id, "agent1");
}

#[test]
fn full_lifecycle() {
    let mut cb = breaker_with_cooldown();
    let t0 = at(1_700_000_000);

    // Start closed
    assert_eq!(cb.check_at("agent1", t0), CanDeliver::Yes);

    // Accumulate failures
    for _ in 0..3 {
        cb.record_failure_at("agent1", t0);
    }
    assert_eq!(cb.check_at("agent1", t0), CanDeliver::No);

    // Cooldown expired -> half-open
    assert_eq!(cb.check_at("agent1", at(1_700_000_120)), CanDeliver::Probe);

    // Probe succeeds -> closed
    cb.record_success("agent1");
    assert_eq!(cb.check("agent1"), CanDeliver::Yes);
    assert_eq!(cb.get_state("agent1").failures, 0);
}

#[test]
fn open_circuit_waits_full_cooldown() {
    let mut cb = breaker_with_cooldown();
    let t0 = at(1_700_000_000);
    for _ in 0..3 {
        cb.record_failure_at("agent1", t0);
    }
    assert_eq!(cb.check_at("agent1", at(1_700_000_059)), CanDeliver::No);
    assert_eq!(cb.check_at("agent1", at(1_700_000_060)), CanDeliver::Probe);
}

#[test]
fn settle_push_reports_opening() {
    let mut cb = test_breaker();
    let t0 = at(1_700_000_000);
    assert_eq!(cb.settle_push_at("agent1", false, t0), None);
    assert_eq!(cb.settle_push_at("agent1", false, t0), None);
    assert_eq!(cb.settle_push_at("agent1", false, t0), Some(3));
    assert_eq!(cb.settle_push_at("agent1", true, t0), None);
    assert_eq!(cb.get_state("agent1").state, "open");
}

#[test]
fn evict_stale_drops_old_open_circuits() {
    let mut cb = test_breaker();
    let t0 = at(1_700_000_000);
    for _ in 0..3 {
        cb.record_failure_at("old", t0);
    }
    cb.record_failure_at("fresh", t0);
    assert_eq!(cb.evict_stale_at(at(1_700_000_000 + 3600)), 1);
    assert_eq!(cb.list_active().len(), 1);
    assert_eq!(cb.list_active()[0].agent_id, "fresh");
}

#[test]
fn open_status_reports_opening_time() {
    let mut cb = test_breaker();
    let t0 = at(0);
    for _ in 0..3 {
        cb.record_failure_at("agent1", t0);
    }
    let st = cb.get_state("agent1");
    assert_eq!(st.state, "open");
    assert_eq!(st.failures, 3);
    assert_eq!(st.opened_at.as_deref(), Some("1970-01-01T00:00:00+00:00"));
}
