//! Per-agent circuit breaker for WebSocket delivery.
//!
//! Tracks delivery failures per agent and stops hammering dead endpoints. A
//! circuit is Closed until `failure_threshold` consecutive failures open it;
//! an Open circuit refuses delivery until `cooldown_seconds` have passed, then
//! lets one probe through (HalfOpen). A successful probe closes it, a failed
//! one opens it again. A heartbeat resets any circuit to Closed.

use vstd::prelude::*;
use crate::assoc::StrMap;
use crate::text::owned;
use crate::time::{UtcInstant, utc_now, format_rfc3339, seconds_between, whole_seconds_between, rfc3339_text, utc_representable};

verus! {

/// Per-agent circuit state.
#[derive(Clone, Copy, Debug)]
pub enum CircuitState {
    Closed { failures: u32 },
    Open { opened_at: UtcInstant, failures: u32 },
    HalfOpen { failures: u32 },
}

/// Whether delivery is allowed for an agent.
#[derive(Debug, Clone, Copy, PartialEq, Eq, Structural)]
pub enum CanDeliver {
    Yes,
    No,
    Probe,
}

/// Snapshot of circuit state for status queries.
#[derive(Debug, Clone)]
pub struct CircuitStatus {
    pub agent_id: String,
    pub state: String,
    pub failures: u32,
    pub opened_at: Option<String>,
}

/// Configuration for the circuit breaker.
#[derive(Debug, Clone, Copy)]
pub struct CircuitConfig {
    pub failure_threshold: u32,
    pub cooldown_seconds: u64,
}

impl Default for CircuitConfig {
    fn default() -> (c: Self)
        ensures
            c.failure_threshold == 5,
            c.cooldown_seconds == 60,
    {
        CircuitConfig { failure_threshold: 5, cooldown_seconds: 60 }
    }
}

impl CircuitState {
    pub open spec fn failure_count(self) -> u32 {
        match self {
            CircuitState::Closed { failures } => failures,
            CircuitState::Open { failures, .. } => failures,
            CircuitState::HalfOpen { failures } => failures,
        }
    }

    /// The name of the state in status reports.
    pub open spec fn label(self) -> Seq<char> {
        match self {
            CircuitState::Closed { .. } => "closed"@,
            CircuitState::Open { .. } => "open"@,
            CircuitState::HalfOpen { .. } => "half_open"@,
        }
    }
}

/// Outcome of a delivery check on a circuit at time `now`: the state after the
/// check and the answer.
pub open spec fn check_step(s: CircuitState, now: UtcInstant, cooldown_seconds: u64) -> (CircuitState, CanDeliver) {
    match s {
        CircuitState::Closed { .. } => (s, CanDeliver::Yes),
        CircuitState::Open { opened_at, failures } => {
            if whole_seconds_between(now, opened_at) >= (cooldown_seconds as i64) {
                (CircuitState::HalfOpen { failures }, CanDeliver::Probe)
            } else {
                (s, CanDeliver::No)
            }
        },
        CircuitState::HalfOpen { .. } => (s, CanDeliver::Probe),
    }
}

/// State after a delivery failure recorded at time `now`.
pub open spec fn failure_step(s: CircuitState, now: UtcInstant, failure_threshold: u32) -> CircuitState {
    match s {
        CircuitState::Closed { failures } => {
            if failures + 1 >= failure_threshold {
                CircuitState::Open { opened_at: now, failures: (failures + 1) as u32 }
            } else {
                CircuitState::Closed { failures: (failures + 1) as u32 }
            }
        },
        CircuitState::Open { failures, .. } => CircuitState::Open { opened_at: now, failures: (failures + 1) as u32 },
        CircuitState::HalfOpen { failures } => CircuitState::Open { opened_at: now, failures: (failures + 1) as u32 },
    }
}

/// State after a delivery success.
pub open spec fn success_step(s: CircuitState) -> CircuitState {
    match s {
        CircuitState::HalfOpen { .. } => CircuitState::Closed { failures: 0 },
        _ => s,
    }
}

/// The state a circuit that has never been touched behaves as.
pub open spec fn fresh() -> CircuitState {
    CircuitState::Closed { failures: 0 }
}

/// Whether a circuit is reported by `list_active` (anything but a clean Closed).
pub open spec fn is_active_state(s: CircuitState) -> bool {
    !(s matches CircuitState::Closed { failures } && failures == 0)
}

/// Whether a status report describes agent `agent` in state `s`.
pub open spec fn describes(st: CircuitStatus, agent: Seq<char>, s: CircuitState) -> bool {
    &&& st.agent_id@ == agent
    &&& st.state@ == s.label()
    &&& st.failures == s.failure_count()
    &&& match s {
        CircuitState::Open { opened_at, .. } => if utc_representable(opened_at.secs, opened_at.nanos) {
            st.opened_at matches Some(t) && t@ == rfc3339_text(opened_at.secs, opened_at.nanos)
        } else {
            st.opened_at is None
        },
        _ => st.opened_at is None,
    }
}

/// Whether an Open circuit has been open for longer than an hour at `now`.
pub open spec fn is_stale_open(s: CircuitState, now: UtcInstant) -> bool {
    s matches CircuitState::Open { opened_at, .. } && !(opened_at.total_nanos() > now.total_nanos()
        - 3_600_000_000_000)
}

/// `after` is `before` without the circuits that are stale at `now`.
pub open spec fn stale_evicted(before: Map<Seq<char>, CircuitState>, after: Map<Seq<char>, CircuitState>, now: UtcInstant) -> bool {
    &&& forall|k: Seq<char>| #[trigger] after.contains_key(k) == (before.contains_key(k) && !is_stale_open(before[k], now))
    &&& forall|k: Seq<char>| #[trigger] after.contains_key(k) ==> after[k] == before[k]
}

/// Per-agent circuit breaker for WS delivery.
pub struct CircuitBreaker {
    states: StrMap<CircuitState>,
    config: CircuitConfig,
}

impl CircuitBreaker {
    pub closed spec fn wf(self) -> bool {
        self.states.wf()
    }

    /// The circuits that exist, by agent.
    pub closed spec fn circuits(self) -> Map<Seq<char>, CircuitState> {
        self.states@
    }

    /// The circuits in the order the agents were first seen.
    pub closed spec fn circuit_seq(self) -> Seq<(Seq<char>, CircuitState)> {
        self.states.pairs()
    }

    /// The circuits `list_active` reports, in order.
    pub open spec fn active_circuits(self) -> Seq<(Seq<char>, CircuitState)> {
        self.circuit_seq().filter(|p: (Seq<char>, CircuitState)| is_active_state(p.1))
    }

    pub closed spec fn spec_config(self) -> CircuitConfig {
        self.config
    }

    /// The state the breaker acts on for `agent`: its circuit, or a clean
    /// Closed one when it has none.
    pub open spec fn state_of(self, agent: Seq<char>) -> CircuitState {
        if self.circuits().contains_key(agent) {
            self.circuits()[agent]
        } else {
            fresh()
        }
    }

    pub fn new(config: CircuitConfig) -> (cb: Self)
        ensures
            cb.wf(),
            cb.circuits() == Map::<Seq<char>, CircuitState>::empty(),
            cb.spec_config() == config,
    {
        CircuitBreaker { states: StrMap::new(), config }
    }

    pub fn with_defaults() -> (cb: Self)
        ensures
            cb.wf(),
            cb.circuits() == Map::<Seq<char>, CircuitState>::empty(),
            cb.spec_config().failure_threshold == 5,
            cb.spec_config().cooldown_seconds == 60,
    {
        Self::new(CircuitConfig::default())
    }

    /// `check` with the current time given.
    pub fn check_at(&mut self, agent_id: &str, now: UtcInstant) -> (r: CanDeliver)
        requires
            old(self).wf(),
        ensures
            final(self).wf(),
            final(self).spec_config() == old(self).spec_config(),
            r == check_step(old(self).state_of(agent_id@), now, old(self).spec_config().cooldown_seconds).1,
            final(self).circuits() == old(self).circuits().insert(
                agent_id@,
                check_step(old(self).state_of(agent_id@), now, old(self).spec_config().cooldown_seconds).0,
            ),
    {
        let idx = match self.states.find(agent_id) {
            Some(i) => i,
            None => {
                let ghost before = self.states;
                let key = owned(agent_id);
                self.states.insert(key, CircuitState::Closed { failures: 0 });
                let n = self.states.len();
                proof {
                    assert(!before.has(agent_id@));
                    assert(self.states.pairs() == before.pairs().push((agent_id@, CircuitState::Closed { failures: 0 })));
                    assert(self.states.pairs().len() == n);
                    assert(self.states.pairs()[n - 1].0 == self.states.key_at(n - 1));
                    assert(self.states.key_at(n - 1) == agent_id@);
                    self.states.lemma_index_of(n - 1);
                }
                n - 1
            },
        };
        proof {
            self.states.lemma_index_of(idx as int);
        }
        let s = self.states.entries[idx].1;
        match s {
            CircuitState::Closed { .. } => CanDeliver::Yes,
            CircuitState::Open { opened_at, failures } => {
                let elapsed = seconds_between(now, opened_at);
                if elapsed >= (#[verifier::truncate] (self.config.cooldown_seconds as i64)) as i128 {
                    self.states.set_value(idx, CircuitState::HalfOpen { failures });
                    CanDeliver::Probe
                } else {
                    CanDeliver::No
                }
            },
            CircuitState::HalfOpen { .. } => CanDeliver::Probe,
        }
    }

    /// Check if delivery is allowed for this agent, reading the clock only
    /// when the circuit is Open.
    pub fn check(&mut self, agent_id: &str) -> (r: CanDeliver)
        requires
            old(self).wf(),
        ensures
            final(self).wf(),
            final(self).spec_config() == old(self).spec_config(),
            exists|now: UtcInstant|
                r == check_step(old(self).state_of(agent_id@), now, old(self).spec_config().cooldown_seconds).1
                && final(self).circuits() == old(self).circuits().insert(
                    agent_id@,
                    #[trigger] check_step(old(self).state_of(agent_id@), now, old(self).spec_config().cooldown_seconds).0,
                ),
    {
        let now = match self.states.get(agent_id) {
            Some(CircuitState::Open { .. }) => utc_now(),
            _ => UtcInstant { secs: 0, nanos: 0 },
        };
        self.check_at(agent_id, now)
    }

    /// `record_failure` with the current time given.
    pub fn record_failure_at(&mut self, agent_id: &str, now: UtcInstant)
        requires
            old(self).wf(),
            old(self).state_of(agent_id@).failure_count() < u32::MAX,
        ensures
            final(self).wf(),
            final(self).spec_config() == old(self).spec_config(),
            final(self).circuits() == old(self).circuits().insert(
                agent_id@,
                failure_step(old(self).state_of(agent_id@), now, old(self).spec_config().failure_threshold),
            ),
            old(self).state_of(agent_id@) matches CircuitState::Open { failures, .. } ==> final(self).state_of(agent_id@)
                == (CircuitState::Open { opened_at: now, failures: (failures + 1) as u32 }),
            old(self).state_of(agent_id@) matches CircuitState::HalfOpen { failures } ==> final(self).state_of(agent_id@)
                == (CircuitState::Open { opened_at: now, failures: (failures + 1) as u32 }),
    {
        proof {
            law_failure_reopens(old(self).state_of(agent_id@), now, old(self).spec_config().failure_threshold);
        }
        let s = match self.states.get(agent_id) {
            Some(s) => *s,
            None => CircuitState::Closed { failures: 0 },
        };
        let next = match s {
            CircuitState::Closed { failures } => {
                let new_failures = failures + 1;
                if new_failures >= self.config.failure_threshold {
                    CircuitState::Open { opened_at: now, failures: new_failures }
                } else {
                    CircuitState::Closed { failures: new_failures }
                }
            },
            CircuitState::Open { failures, .. } => CircuitState::Open { opened_at: now, failures: failures + 1 },
            CircuitState::HalfOpen { failures } => CircuitState::Open { opened_at: now, failures: failures + 1 },
        };
        self.states.insert(owned(agent_id), next);
    }

    /// Record a delivery failure. May transition Closed -> Open; an Open or
    /// HalfOpen circuit is (re)opened now.
    pub fn record_failure(&mut self, agent_id: &str)
        requires
            old(self).wf(),
            old(self).state_of(agent_id@).failure_count() < u32::MAX,
        ensures
            final(self).wf(),
            final(self).spec_config() == old(self).spec_config(),
            exists|now: UtcInstant|
                final(self).circuits() == old(self).circuits().insert(
                    agent_id@,
                    #[trigger] failure_step(old(self).state_of(agent_id@), now, old(self).spec_config().failure_threshold),
                ),
    {
        let s = match self.states.get(agent_id) {
            Some(s) => *s,
            None => CircuitState::Closed { failures: 0 },
        };
        let now = match s {
            CircuitState::Closed { failures } => {
                if failures + 1 >= self.config.failure_threshold {
                    utc_now()
                } else {
                    UtcInstant { secs: 0, nanos: 0 }
                }
            },
            _ => utc_now(),
        };
        self.record_failure_at(agent_id, now);
    }

    /// Record a delivery success. Transitions HalfOpen -> Closed; creates no
    /// circuit.
    pub fn record_success(&mut self, agent_id: &str)
        requires
            old(self).wf(),
        ensures
            final(self).wf(),
            final(self).spec_config() == old(self).spec_config(),
            final(self).circuits() == if old(self).circuits().contains_key(agent_id@) {
                old(self).circuits().insert(agent_id@, success_step(old(self).circuits()[agent_id@]))
            } else {
                old(self).circuits()
            },
    {
        match self.states.find(agent_id) {
            Some(i) => {
                proof {
                    self.states.lemma_index_of(i as int);
                }
                if let CircuitState::HalfOpen { .. } = self.states.entries[i].1 {
                    self.states.set_value(i, CircuitState::Closed { failures: 0 });
                } else {
                    assert(self.circuits().insert(agent_id@, self.circuits()[agent_id@]) =~= self.circuits());
                }
            },
            None => {},
        }
    }

    /// Settles a push attempt made after `check` allowed it, at time
    /// `now`: a delivered push counts as a success; an undelivered one as a
    /// failure, and when that leaves the circuit open the failure count to
    /// report with its opening comes back.
    pub fn settle_push_at(&mut self, agent_id: &str, delivered: bool, now: UtcInstant) -> (r: Option<u32>)
        requires
            old(self).wf(),
            !delivered ==> old(self).state_of(agent_id@).failure_count() < u32::MAX,
        ensures
            final(self).wf(),
            final(self).spec_config() == old(self).spec_config(),
            delivered ==> r is None && final(self).circuits() == if old(self).circuits().contains_key(agent_id@) {
                old(self).circuits().insert(agent_id@, success_step(old(self).circuits()[agent_id@]))
            } else {
                old(self).circuits()
            },
            !delivered ==> final(self).circuits() == old(self).circuits().insert(
                agent_id@,
                failure_step(old(self).state_of(agent_id@), now, old(self).spec_config().failure_threshold),
            ) && r == match failure_step(old(self).state_of(agent_id@), now, old(self).spec_config().failure_threshold) {
                CircuitState::Open { failures, .. } => Some(failures),
                _ => None,
            },
    {
        if delivered {
            self.record_success(agent_id);
            None
        } else {
            self.record_failure_at(agent_id, now);
            match self.states.get(agent_id) {
                Some(CircuitState::Open { failures, .. }) => Some(*failures),
                _ => None,
            }
        }
    }

    /// `settle_push_at` reading the clock.
    pub fn settle_push(&mut self, agent_id: &str, delivered: bool) -> (r: Option<u32>)
        requires
            old(self).wf(),
            !delivered ==> old(self).state_of(agent_id@).failure_count() < u32::MAX,
        ensures
            final(self).wf(),
            final(self).spec_config() == old(self).spec_config(),
            delivered ==> r is None && final(self).circuits() == if old(self).circuits().contains_key(agent_id@) {
                old(self).circuits().insert(agent_id@, success_step(old(self).circuits()[agent_id@]))
            } else {
                old(self).circuits()
            },
            !delivered ==> exists|now: UtcInstant|
                final(self).circuits() == old(self).circuits().insert(
                    agent_id@,
                    #[trigger] failure_step(old(self).state_of(agent_id@), now, old(self).spec_config().failure_threshold),
                ) && r == match failure_step(old(self).state_of(agent_id@), now, old(self).spec_config().failure_threshold) {
                    CircuitState::Open { failures, .. } => Some(failures),
                    _ => None,
                },
    {
        let now = if delivered {
            UtcInstant { secs: 0, nanos: 0 }
        } else {
            utc_now()
        };
        self.settle_push_at(agent_id, delivered, now)
    }

    /// Reset circuit on heartbeat. Any state -> Closed.
    pub fn reset(&mut self, agent_id: &str)
        requires
            old(self).wf(),
        ensures
            final(self).wf(),
            final(self).spec_config() == old(self).spec_config(),
            final(self).circuits() == old(self).circuits().insert(agent_id@, fresh()),
    {
        self.states.insert(owned(agent_id), CircuitState::Closed { failures: 0 });
    }

    /// Remove circuit state for an agent (on disconnect).
    pub fn remove(&mut self, agent_id: &str)
        requires
            old(self).wf(),
        ensures
            final(self).wf(),
            final(self).spec_config() == old(self).spec_config(),
            final(self).circuits() == old(self).circuits().remove(agent_id@),
    {
        let _ = self.states.remove(agent_id);
    }

    /// Evict entries that have been Open for longer than one hour before
    /// `now`; returns the number of evicted entries.
    pub fn evict_stale_at(&mut self, now: UtcInstant) -> (r: usize)
        requires
            old(self).wf(),
        ensures
            final(self).wf(),
            final(self).spec_config() == old(self).spec_config(),
            stale_evicted(old(self).circuits(), final(self).circuits(), now),
            r == old(self).circuits().dom().len() - final(self).circuits().dom().len(),
    {
        let ghost start = self.states;
        let ghost cfg = self.config;
        let before = self.states.len();
        // nanoseconds of `now` less one hour, compared exactly
        let cutoff: i128 = now.secs as i128 * 1_000_000_000i128 + now.nanos as i128 - 3_600_000_000_000i128;
        let mut i: usize = 0;
        while i < self.states.len()
            invariant
                self.states.wf(),
                self.config == cfg,
                before == start.entries@.len(),
                self.states.entries@.len() <= before,
                i <= self.states.entries@.len(),
                cutoff == now.total_nanos() - 3_600_000_000_000,
                forall|k: Seq<char>| #[trigger] self.states@.contains_key(k) ==> start@.contains_key(k) && self.states@[k] == start@[k],
                forall|k: Seq<char>| start@.contains_key(k) && !is_stale_open(start@[k], now) ==> #[trigger] self.states@.contains_key(k),
                forall|j: int| 0 <= j < i ==> !is_stale_open(#[trigger] self.states.entries@[j].1, now),
                forall|k: Seq<char>| #[trigger] self.states@.contains_key(k) && is_stale_open(self.states@[k], now) ==> self.states.index_of(k) >= i,
            decreases self.states.entries@.len() - i,
        {
            proof {
                self.states.lemma_index_of(i as int);
            }
            let stale = match self.states.entries[i].1 {
                CircuitState::Open { opened_at, .. } => {
                    let at: i128 = opened_at.secs as i128 * 1_000_000_000i128 + opened_at.nanos as i128;
                    assert(at == opened_at.total_nanos()) by (nonlinear_arith)
                        requires at == opened_at.secs as int * 1_000_000_000 + opened_at.nanos as int;
                    !(at > cutoff)
                },
                _ => false,
            };
            if stale {
                let ghost prev = self.states;
                self.states.remove_at(i);
                proof {
                    assert(prev.pairs().len() == prev.entries@.len());
                    assert(self.states.pairs().len() == self.states.entries@.len());
                    assert(prev.entries@.len() == self.states.entries@.len() + 1);
                    assert forall|k: Seq<char>| #[trigger] self.states@.contains_key(k) && is_stale_open(self.states@[k], now)
                        implies self.states.index_of(k) >= i by {
                        let a = self.states.index_of(k);
                        self.states.lemma_index_of(a);
                        assert(self.states.pairs()[a] == prev.pairs().remove(i as int)[a]);
                        let b = if a < i { a } else { a + 1 };
                        assert(prev.pairs()[b].0 == prev.key_at(b));
                        prev.lemma_index_of(b);
                        if a < i {
                            assert(prev.entries@[a].1 == self.states.entries@[a].1);
                        }
                    }
                    assert forall|j: int| 0 <= j < i implies !is_stale_open(#[trigger] self.states.entries@[j].1, now) by {
                        assert(self.states.pairs()[j] == prev.pairs()[j]);
                    }
                }
            } else {
                proof {
                    assert forall|k: Seq<char>| #[trigger] self.states@.contains_key(k) && is_stale_open(self.states@[k], now)
                        implies self.states.index_of(k) >= i + 1 by {
                        let a = self.states.index_of(k);
                        self.states.lemma_index_of(a);
                    }
                }
                i += 1;
            }
        }
        proof {
            assert forall|k: Seq<char>| #[trigger] self.states@.contains_key(k) implies !is_stale_open(self.states@[k], now) by {
                let a = self.states.index_of(k);
                self.states.lemma_index_of(a);
            }
            self.states.lemma_dom();
            start.lemma_dom();
        }
        before - self.states.len()
    }

    /// Evict entries that have been Open for longer than 1 hour.
    /// Returns the number of evicted entries.
    pub fn evict_stale(&mut self) -> (r: usize)
        requires
            old(self).wf(),
        ensures
            final(self).wf(),
            final(self).spec_config() == old(self).spec_config(),
            exists|now: UtcInstant| #[trigger] stale_evicted(old(self).circuits(), final(self).circuits(), now),
            r == old(self).circuits().dom().len() - final(self).circuits().dom().len(),
    {
        let now = utc_now();
        self.evict_stale_at(now)
    }

    /// Get current state for status queries.
    pub fn get_state(&self, agent_id: &str) -> (st: CircuitStatus)
        requires
            self.wf(),
        ensures
            describes(st, agent_id@, self.state_of(agent_id@)),
    {
        let s = match self.states.get(agent_id) {
            Some(s) => *s,
            None => CircuitState::Closed { failures: 0 },
        };
        status_of(agent_id, s)
    }

    /// List all circuits with non-default state, in the order their agents
    /// were first seen.
    pub fn list_active(&self) -> (r: Vec<CircuitStatus>)
        requires
            self.wf(),
        ensures
            r@.len() == self.active_circuits().len(),
            forall|j: int| 0 <= j < r@.len() ==> describes(#[trigger] r@[j], self.active_circuits()[j].0, self.active_circuits()[j].1),
    {
        let ghost pred = |p: (Seq<char>, CircuitState)| is_active_state(p.1);
        let ghost all = self.circuit_seq();
        let mut result: Vec<CircuitStatus> = Vec::new();
        let mut i: usize = 0;
        while i < self.states.len()
            invariant
                i <= self.states.entries@.len(),
                all == self.circuit_seq(),
                pred == (|p: (Seq<char>, CircuitState)| is_active_state(p.1)),
                all.len() == self.states.entries@.len(),
                result@.len() == all.take(i as int).filter(pred).len(),
                forall|j: int| 0 <= j < result@.len() ==> describes(#[trigger] result@[j], all.take(i as int).filter(pred)[j].0, all.take(i as int).filter(pred)[j].1),
            decreases self.states.entries@.len() - i,
        {
            proof {
                reveal_with_fuel(Seq::<_>::filter, 1);
                assert(all.take(i + 1).drop_last() =~= all.take(i as int));
            }
            let entry = &self.states.entries[i];
            assert(all[i as int] == (entry.0@, entry.1));
            let active = match entry.1 {
                CircuitState::Closed { failures } => failures != 0,
                _ => true,
            };
            if active {
                let st = status_of(entry.0.as_str(), entry.1);
                result.push(st);
            }
            proof {
                let t = all.take(i as int + 1);
                assert(t.drop_last() =~= all.take(i as int));
                assert(t.last() == all[i as int]);
                assert(pred(all[i as int]) == active);
                assert(t.filter(pred) == if pred(all[i as int]) {
                    all.take(i as int).filter(pred).push(all[i as int])
                } else {
                    all.take(i as int).filter(pred)
                });
            }
            i += 1;
        }
        proof {
            assert(all.take(all.len() as int) =~= all);
        }
        result
    }
}

/// The status report of agent `agent_id` in state `s`.
fn status_of(agent_id: &str, s: CircuitState) -> (st: CircuitStatus)
    ensures
        describes(st, agent_id@, s),
{
    match s {
        CircuitState::Closed { failures } => CircuitStatus {
            agent_id: owned(agent_id),
            state: owned("closed"),
            failures,
            opened_at: None,
        },
        CircuitState::Open { opened_at, failures } => CircuitStatus {
            agent_id: owned(agent_id),
            state: owned("open"),
            failures,
            opened_at: format_rfc3339(opened_at),
        },
        CircuitState::HalfOpen { failures } => CircuitStatus {
            agent_id: owned(agent_id),
            state: owned("half_open"),
            failures,
            opened_at: None,
        },
    }
}

/// The state after consecutive failures at the given times, from `s`.
pub open spec fn after_failures(s: CircuitState, times: Seq<UtcInstant>, failure_threshold: u32) -> CircuitState
    decreases times.len(),
{
    if times.len() == 0 {
        s
    } else {
        failure_step(after_failures(s, times.drop_last(), failure_threshold), times.last(), failure_threshold)
    }
}

/// A fresh circuit stays closed, counting, through fewer consecutive
/// failures than the threshold, and the failure that reaches the threshold
/// opens it at that failure's time.
pub proof fn law_threshold_opens(times: Seq<UtcInstant>, failure_threshold: u32)
    requires
        times.len() <= failure_threshold,
    ensures
        times.len() < failure_threshold ==> after_failures(fresh(), times, failure_threshold) == (CircuitState::Closed {
            failures: times.len() as u32,
        }),
        times.len() == failure_threshold && failure_threshold > 0 ==> after_failures(fresh(), times, failure_threshold)
            == (CircuitState::Open { opened_at: times.last(), failures: failure_threshold }),
    decreases times.len(),
{
    if times.len() > 0 {
        law_threshold_opens(times.drop_last(), failure_threshold);
    }
}

/// An agent the breaker has never seen delivers, and the check records a
/// clean closed circuit for it.
pub proof fn law_unseen_agent_delivers(cb: CircuitBreaker, agent: Seq<char>, now: UtcInstant)
    requires
        !cb.circuits().contains_key(agent),
    ensures
        check_step(cb.state_of(agent), now, cb.spec_config().cooldown_seconds) == (fresh(), CanDeliver::Yes),
{
}

/// A closed circuit always delivers, and a check leaves it as it is.
pub proof fn law_closed_delivers(failures: u32, now: UtcInstant, cooldown_seconds: u64)
    ensures
        check_step(CircuitState::Closed { failures }, now, cooldown_seconds) == (CircuitState::Closed { failures }, CanDeliver::Yes),
{
}

/// A failure on a circuit that is open or half open opens it again at the
/// failure's time with one more failure, so the cooldown starts over: a
/// check before the cooldown has passed since that failure is refused.
pub proof fn law_failure_reopens(s: CircuitState, now: UtcInstant, failure_threshold: u32)
    ensures
        s matches CircuitState::Open { failures, .. } ==> failure_step(s, now, failure_threshold) == (CircuitState::Open {
            opened_at: now,
            failures: (failures + 1) as u32,
        }),
        s matches CircuitState::HalfOpen { failures } ==> failure_step(s, now, failure_threshold) == (CircuitState::Open {
            opened_at: now,
            failures: (failures + 1) as u32,
        }),
{
}

/// After a failure on an open circuit, a check is refused until the
/// cooldown has passed since that failure, whenever the circuit first
/// opened.
pub proof fn law_failure_restarts_cooldown(
    opened_at: UtcInstant,
    failures: u32,
    failed_at: UtcInstant,
    later: UtcInstant,
    failure_threshold: u32,
    cooldown_seconds: u64,
)
    requires
        whole_seconds_between(later, failed_at) < cooldown_seconds as i64,
    ensures
        check_step(
            failure_step(CircuitState::Open { opened_at, failures }, failed_at, failure_threshold),
            later,
            cooldown_seconds,
        ).1 == CanDeliver::No,
{
    law_failure_reopens(CircuitState::Open { opened_at, failures }, failed_at, failure_threshold);
}

/// An open circuit refuses delivery, unchanged, until the cooldown has
/// passed since it opened; from then on a check lets one probe through and
/// leaves it half open.
pub proof fn law_open_waits_for_cooldown(opened_at: UtcInstant, failures: u32, now: UtcInstant, cooldown_seconds: u64)
    ensures
        whole_seconds_between(now, opened_at) < cooldown_seconds as i64 ==> check_step(
            CircuitState::Open { opened_at, failures },
            now,
            cooldown_seconds,
        ) == (CircuitState::Open { opened_at, failures }, CanDeliver::No),
        whole_seconds_between(now, opened_at) >= cooldown_seconds as i64 ==> check_step(
            CircuitState::Open { opened_at, failures },
            now,
            cooldown_seconds,
        ) == (CircuitState::HalfOpen { failures }, CanDeliver::Probe),
{
}

/// After a check that lets a probe through, a successful delivery closes
/// the circuit, which then delivers again; a failed one opens it again at
/// the failure's time with one more failure.
pub proof fn law_probe_settles(
    s: CircuitState,
    now: UtcInstant,
    cooldown_seconds: u64,
    later: UtcInstant,
    failure_threshold: u32,
)
    requires
        check_step(s, now, cooldown_seconds).1 == CanDeliver::Probe,
    ensures
        success_step(check_step(s, now, cooldown_seconds).0) == fresh(),
        check_step(success_step(check_step(s, now, cooldown_seconds).0), later, cooldown_seconds).1 == CanDeliver::Yes,
        failure_step(check_step(s, now, cooldown_seconds).0, later, failure_threshold) == (CircuitState::Open {
            opened_at: later,
            failures: (s.failure_count() + 1) as u32,
        }),
{
}

/// A heartbeat resets any circuit: the agent then behaves as one never
/// seen, and its next check delivers.
pub proof fn law_reset_delivers(before: CircuitBreaker, after: CircuitBreaker, agent: Seq<char>, now: UtcInstant)
    requires
        after.circuits() == before.circuits().insert(agent, fresh()),
    ensures
        after.state_of(agent) == fresh(),
        check_step(after.state_of(agent), now, after.spec_config().cooldown_seconds).1 == CanDeliver::Yes,
{
}

/// A removed circuit is forgotten: the agent behaves as one never seen.
pub proof fn law_remove_forgets(before: CircuitBreaker, after: CircuitBreaker, agent: Seq<char>)
    requires
        after.circuits() == before.circuits().remove(agent),
    ensures
        after.state_of(agent) == fresh(),
{
}

/// Circuits are per agent: an operation on one agent's circuit (each
/// replaces or removes that circuit alone) leaves every other agent's as it
/// was.
pub proof fn law_agents_independent(
    before: CircuitBreaker,
    after: CircuitBreaker,
    agent: Seq<char>,
    other: Seq<char>,
    s: CircuitState,
)
    requires
        agent != other,
        after.circuits() == before.circuits().insert(agent, s) || after.circuits() == before.circuits().remove(agent),
    ensures
        after.state_of(other) == before.state_of(other),
{
}

/// `list_active` reports exactly the circuits that are not cleanly closed:
/// each one it lists is, and each such circuit is listed.
pub proof fn law_list_active_skips_healthy(cb: CircuitBreaker)
    ensures
        forall|j: int| 0 <= j < cb.active_circuits().len() ==> is_active_state(#[trigger] cb.active_circuits()[j].1),
        forall|i: int|
            0 <= i < cb.circuit_seq().len() && is_active_state(cb.circuit_seq()[i].1) ==> #[trigger] cb.active_circuits().contains(
                cb.circuit_seq()[i],
            ),
{
    let pred = |p: (Seq<char>, CircuitState)| is_active_state(p.1);
    assert forall|j: int| 0 <= j < cb.active_circuits().len() implies is_active_state(#[trigger] cb.active_circuits()[j].1) by {
        cb.circuit_seq().lemma_filter_pred(pred, j);
    }
    assert forall|i: int|
        0 <= i < cb.circuit_seq().len() && is_active_state(cb.circuit_seq()[i].1) implies #[trigger] cb.active_circuits().contains(
        cb.circuit_seq()[i],
    ) by {
        cb.circuit_seq().lemma_filter_contains(pred, i);
    }
}

} // verus!
