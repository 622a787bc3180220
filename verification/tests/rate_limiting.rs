use envoy::rate_limit::{HybridRateLimiter, RateLimitConfig, RateLimitState, RateLimitStore, TokenBucket};
use envoy::time::TimeSpan;

#[test]
fn test_token_bucket_initial_state() {
    let bucket = TokenBucket::new(100, 10);
    assert_eq!(bucket.tokens, 100);
    assert_eq!(bucket.max_tokens, 100);
    assert_eq!(bucket.replenish_rate, 10);
}

#[test]
fn bucket_replenish_caps_at_capacity() {
    let mut bucket = TokenBucket::new(100, 10);
    bucket.consume(50);
    assert_eq!(bucket.tokens, 50);
    bucket.replenish(TimeSpan { secs: 2, nanos: 500_000_000 });
    assert_eq!(bucket.tokens, 75);
    bucket.replenish(TimeSpan { secs: 60, nanos: 0 });
    assert_eq!(bucket.tokens, 100);
}

#[test]
fn bucket_try_consume_reports_shortfall() {
    let mut bucket = TokenBucket::new(3, 1);
    assert_eq!(bucket.try_consume(2), Ok(()));
    assert_eq!(bucket.try_consume(2), Err(1));
    assert_eq!(bucket.tokens, 1);
    bucket.consume(5);
    assert_eq!(bucket.tokens, 0);
}

#[test]
fn state_check_allows_then_refuses_with_retry() {
    let mut st = RateLimitState::new("a", 2, 4);
    assert!(st.check(1).allowed);
    assert!(st.check(1).allowed);
    let d = st.check(1);
    assert!(!d.allowed);
    // one token at 4 per second: a quarter of a second
    assert_eq!(d.retry_after, Some(TimeSpan { secs: 0, nanos: 250_000_000 }));
    assert_eq!(st.bucket().tokens, 0);
}

#[test]
fn retry_after_rounds_to_nearest_nanosecond() {
    let mut st = RateLimitState::new("a", 0, 3);
    let d = st.check(1);
    assert_eq!(d.retry_after, Some(TimeSpan { secs: 0, nanos: 333_333_333 }));
    let mut st = RateLimitState::new("a", 0, 3);
    let d = st.check(2);
    assert_eq!(d.retry_after, Some(TimeSpan { secs: 0, nanos: 666_666_667 }));
}

#[test]
fn config_defaults() {
    let c = RateLimitConfig::default();
    assert_eq!((c.max_tokens, c.replenish_rate, c.burst_size), (1000, 100, 5000));
}

#[test]
fn stored_state_defaults() {
    let store = RateLimitStore::new();
    let st = store.state_from_record("a".into(), None, None, None);
    assert_eq!(st.bucket().tokens, 0);
    assert_eq!(st.bucket().max_tokens, 1000);
    assert_eq!(st.bucket().replenish_rate, 100);
}

#[test]
fn hybrid_hit_miss_and_ban() {
    let mut lim = HybridRateLimiter::new(RateLimitConfig::new(2, 1, 0), 2, Vec::new(), Vec::new());
    assert_eq!(lim.check_cached("a"), None);
    let (d, ev) = lim.check_loaded("a", None);
    assert!(d.allowed);
    assert!(ev.is_none());
    let d = lim.check_cached("a").unwrap();
    assert!(d.allowed);
    let d = lim.check_cached("a").unwrap();
    assert!(!d.allowed);
    let s = lim.stats();
    assert_eq!((s.l1_hits, s.l1_misses, s.l1_size), (2, 1, 1));

    lim.ban_agent("a", "abuse");
    let d = lim.check_cached("a").unwrap();
    assert!(!d.allowed);
    assert_eq!(d.retry_after, Some(TimeSpan { secs: 3600, nanos: 0 }));
    assert_eq!(lim.stats().banned_agents, vec!["a".to_string()]);
    assert_eq!(lim.stats().l1_size, 0);
    lim.unban_agent("a");
    assert!(lim.stats().banned_agents.is_empty());
    assert_eq!(lim.check_cached("a"), None);
}

#[test]
fn hybrid_evicts_least_recently_used() {
    let mut lim = HybridRateLimiter::new(RateLimitConfig::new(10, 1, 0), 2, Vec::new(), Vec::new());
    assert!(lim.check_cached("a").is_none());
    lim.check_loaded("a", None);
    assert!(lim.check_cached("b").is_none());
    lim.check_loaded("b", None);
    // use a again so b is the least recently used
    lim.check_cached("a").unwrap();
    assert!(lim.check_cached("c").is_none());
    let (_, ev) = lim.check_loaded("c", None);
    let (key, state) = ev.unwrap();
    assert_eq!(key, "b");
    assert_eq!(state.bucket().tokens, 9);
    assert_eq!(lim.stats().l1_evictions, 1);
    assert_eq!(lim.stats().l1_size, 2);
}

#[test]
fn hybrid_uses_loaded_state() {
    let mut lim = HybridRateLimiter::new(RateLimitConfig::new(10, 1, 0), 4, Vec::new(), Vec::new());
    let stored = RateLimitStore::new().state_from_record("x".into(), Some(0), Some(10), Some(2));
    assert!(lim.check_cached("x").is_none());
    let (d, _) = lim.check_loaded("x", Some(stored));
    assert!(!d.allowed);
    assert_eq!(d.retry_after, Some(TimeSpan { secs: 0, nanos: 500_000_000 }));
}

#[test]
fn hybrid_replenish_all() {
    let warm = vec![RateLimitState::new("a", 5, 1)];
    let mut lim = HybridRateLimiter::new(RateLimitConfig::new(5, 1, 0), 4, warm, Vec::new());
    for _ in 0..5 {
        assert!(lim.check_cached("a").unwrap().allowed);
    }
    assert!(!lim.check_cached("a").unwrap().allowed);
    lim.replenish_all(TimeSpan { secs: 3, nanos: 0 });
    assert!(lim.check_cached("a").unwrap().allowed);
    assert!(lim.check_cached("a").unwrap().allowed);
    assert!(lim.check_cached("a").unwrap().allowed);
    assert!(!lim.check_cached("a").unwrap().allowed);
}

#[test]
fn ban_survives_restart() {
    let store = RateLimitStore::new();
    assert_eq!(store.ban_record_name("agent-x"), "agent-x");
    let records = vec![
        ("agent-x".to_string(), Some("abuse".to_string())),
        ("agent-y".to_string(), None),
    ];
    let bans = store.load_bans(records);
    assert_eq!(bans, vec![("agent-x".to_string(), "abuse".to_string())]);
    let mut lim = HybridRateLimiter::new(RateLimitConfig::new(10, 1, 0), 4, Vec::new(), bans);
    assert_eq!(lim.stats().banned_agents, vec!["agent-x".to_string()]);
    let d = lim.check_cached("agent-x").unwrap();
    assert!(!d.allowed);
    assert_eq!(d.retry_after.map(|t| t.secs), Some(3600));
    lim.unban_agent("agent-x");
    assert!(lim.check_cached("agent-x").is_none());
}

#[test]
fn a_ban_holds_over_repeated_checks() {
    let mut lim = HybridRateLimiter::new(RateLimitConfig::new(100, 1, 0), 4, Vec::new(), Vec::new());
    lim.ban_agent("b", "spam");
    for _ in 0..5 {
        let d = lim.check_cached("b").unwrap();
        assert!(!d.allowed);
        assert_eq!(d.retry_after, Some(TimeSpan { secs: 3600, nanos: 0 }));
    }
    let s = lim.stats();
    assert_eq!((s.l1_hits, s.l1_misses, s.l1_size), (0, 0, 0));
    assert_eq!(s.banned_agents, vec!["b".to_string()]);
}
