//! Per-agent rate limiting with token buckets.
//!
//! The hybrid limiter keeps the buckets of recently seen agents in memory
//! (level one), bounded by a capacity: when it is full, the least recently
//! used bucket leaves it and goes back to the store (level two). Banned
//! agents are refused for an hour without touching their bucket.
//!
//! Reading and writing the store is the application's part: a lookup that
//! misses level one returns `None`, the application loads the stored state,
//! and `check_loaded` finishes the check, handing back any evicted bucket to store.

pub mod config;
pub mod state;
pub mod store;

pub use config::RateLimitConfig;
pub use state::{RateLimitDecision, RateLimitState, TokenBucket};
pub use store::RateLimitStore;

use vstd::prelude::*;
use crate::assoc::StrMap;
use crate::monitor::views;
use crate::rate_limit::state::{check_step, replenish_step, earned};
use crate::rate_limit::store::stored_bans;
use crate::text::owned;
use crate::time::TimeSpan;

verus! {

/// Statistics for the hybrid rate limiter.
#[derive(Debug)]
pub struct HybridRateLimiterStats {
    pub l1_size: usize,
    pub l1_capacity: usize,
    pub l1_hits: u64,
    pub l1_misses: u64,
    pub l1_evictions: u64,
    pub banned_agents: Vec<String>,
}

impl Clone for HybridRateLimiterStats {
    fn clone(&self) -> (r: Self)
        ensures
            r.l1_size == self.l1_size,
            r.l1_capacity == self.l1_capacity,
            r.l1_hits == self.l1_hits,
            r.l1_misses == self.l1_misses,
            r.l1_evictions == self.l1_evictions,
            r.banned_agents@ == self.banned_agents@,
    {
        HybridRateLimiterStats {
            l1_size: self.l1_size,
            l1_capacity: self.l1_capacity,
            l1_hits: self.l1_hits,
            l1_misses: self.l1_misses,
            l1_evictions: self.l1_evictions,
            banned_agents: crate::agent::clone_strings(&self.banned_agents),
        }
    }
}

/// A cached bucket and when it was last used: a larger stamp is a more
/// recent use.
#[derive(Debug)]
struct L1Entry {
    state: RateLimitState,
    last_accessed: u64,
}

impl Clone for L1Entry {
    fn clone(&self) -> (r: Self)
        ensures
            r == *self,
    {
        L1Entry { state: self.state.clone(), last_accessed: self.last_accessed }
    }
}

/// The names of a sequence of pairs, in order.
pub open spec fn key_views<V>(p: Seq<(Seq<char>, V)>) -> Seq<Seq<char>> {
    p.map_values(|e: (Seq<char>, V)| e.0)
}

/// A fresh bucket for `agent` as the configuration makes one.
pub open spec fn fresh_state(s: RateLimitState, agent: Seq<char>, config: RateLimitConfig) -> bool {
    &&& s.spec_agent_id()@ == agent
    &&& s.spec_bucket().tokens == config.max_tokens
    &&& s.spec_bucket().max_tokens == config.max_tokens
    &&& s.spec_bucket().replenish_rate == config.replenish_rate
}

/// The answer to a banned agent: refused, retry in an hour.
pub open spec fn banned_decision() -> RateLimitDecision {
    RateLimitDecision { allowed: false, retry_after: Some(TimeSpan { secs: 3600, nanos: 0 }) }
}

/// Unbanning undoes a ban: an agent that was not banned before is not
/// banned after being banned and unbanned, and the other bans stay.
pub proof fn law_unban_undoes_ban(bans: Map<Seq<char>, Seq<char>>, agent: Seq<char>, reason: Seq<char>)
    ensures
        !bans.contains_key(agent) ==> bans.insert(agent, reason).remove(agent) == bans,
        bans.insert(agent, reason).contains_key(agent),
{
    if !bans.contains_key(agent) {
        assert(bans.insert(agent, reason).remove(agent) =~= bans);
    }
}

/// The bans a list of stored (agent, reason) records gives: later records of
/// an agent replace earlier ones.
pub open spec fn bans_of(records: Seq<(String, String)>) -> Map<Seq<char>, Seq<char>>
    decreases records.len(),
{
    if records.len() == 0 {
        Map::empty()
    } else {
        bans_of(records.drop_last()).insert(records.last().0@, records.last().1@)
    }
}

/// A ban outlives a restart: the bans loaded from the stored records hold
/// every agent whose last ban record carries a reason, with that reason, so
/// a limiter built with them refuses the agent until the ban is lifted.
pub proof fn law_ban_survives_restart(records: Seq<(String, Option<String>)>, i: int)
    requires
        0 <= i < records.len(),
        records[i].1 is Some,
        forall|j: int| i < j < records.len() ==> (#[trigger] records[j]).0@ != records[i].0@,
    ensures
        bans_of(stored_bans(records)).contains_key(records[i].0@),
        bans_of(stored_bans(records))[records[i].0@] == records[i].1.unwrap()@,
    decreases records.len(),
{
    let d = records.drop_last();
    let last = records.last();
    if i == records.len() - 1 {
        let prev = stored_bans(d);
        assert(stored_bans(records) == prev.push((last.0, last.1.unwrap())));
        assert(prev.push((last.0, last.1.unwrap())).drop_last() =~= prev);
    } else {
        assert forall|j: int| i < j < d.len() implies (#[trigger] d[j]).0@ != d[i].0@ by {
            assert(d[j] == records[j]);
        }
        assert(d[i] == records[i]);
        law_ban_survives_restart(d, i);
        assert(last.0@ != records[i].0@);
        match last.1 {
            Some(reason) => {
                let prev = stored_bans(d);
                assert(prev.push((last.0, reason)).drop_last() =~= prev);
            },
            None => {},
        }
    }
}

/// Hybrid rate limiter: an in-memory level of per-agent buckets in front of
/// the persistent store.
pub struct HybridRateLimiter {
    store: RateLimitStore,
    config: RateLimitConfig,
    l1: StrMap<L1Entry>,
    l1_capacity: usize,
    banned: StrMap<String>,
    clock: u64,
    stats: HybridRateLimiterStats,
}

impl HybridRateLimiter {
    /// The cached bucket of each agent.
    pub closed spec fn cached(self) -> Map<Seq<char>, RateLimitState> {
        self.l1@.map_values(|e: L1Entry| e.state)
    }

    /// When each cached bucket was last used.
    pub closed spec fn stamps(self) -> Map<Seq<char>, u64> {
        self.l1@.map_values(|e: L1Entry| e.last_accessed)
    }

    /// Number of cached buckets.
    pub closed spec fn size(self) -> nat {
        self.l1.entries@.len()
    }

    /// The ban reason of each banned agent.
    pub closed spec fn bans(self) -> Map<Seq<char>, Seq<char>> {
        self.banned@.map_values(|r: String| r@)
    }

    /// The banned agents in the order they were first banned.
    pub closed spec fn ban_order(self) -> Seq<Seq<char>> {
        key_views(self.banned.pairs())
    }

    /// The stamp the next use receives.
    pub closed spec fn clock(self) -> u64 {
        self.clock
    }

    pub closed spec fn spec_config(self) -> RateLimitConfig {
        self.config
    }

    pub closed spec fn capacity(self) -> usize {
        self.l1_capacity
    }

    pub closed spec fn spec_stats(self) -> HybridRateLimiterStats {
        self.stats
    }

    /// The least recently used cached bucket is that of `k`.
    pub open spec fn is_lru(self, k: Seq<char>) -> bool {
        &&& self.cached().contains_key(k)
        &&& forall|k2: Seq<char>| #[trigger] self.stamps().contains_key(k2) ==> self.stamps()[k] <= self.stamps()[k2]
    }

    /// Invariant: names are unique, the statistics mirror the levels, stamps
    /// are older than the clock, and every bucket replenishes.
    pub closed spec fn wf(self) -> bool {
        &&& self.l1.wf()
        &&& self.banned.wf()
        &&& self.stats.l1_size == self.l1.entries@.len()
        &&& self.stats.l1_capacity == self.l1_capacity
        &&& views(self.stats.banned_agents@) == key_views(self.banned.pairs())
        &&& self.config.replenish_rate > 0
        &&& forall|i: int|
            0 <= i < self.l1.entries@.len() ==> (#[trigger] self.l1.entries@[i]).1.last_accessed < self.clock
                && self.l1.entries@[i].1.state.spec_bucket().replenish_rate > 0
    }

    /// The counters can take one more step.
    pub closed spec fn has_room(self) -> bool {
        &&& self.clock < u64::MAX
        &&& self.stats.l1_hits < u64::MAX
        &&& self.stats.l1_misses < u64::MAX
        &&& self.stats.l1_evictions < u64::MAX
    }

    proof fn lemma_views(self)
        requires
            self.wf(),
        ensures
            self.cached().dom() == self.l1@.dom(),
            self.stamps().dom() == self.l1@.dom(),
            forall|i: int|
                0 <= i < self.l1.entries@.len() ==> #[trigger] self.cached()[self.l1.key_at(i)]
                    == self.l1.entries@[i].1.state && self.stamps()[self.l1.key_at(i)] == self.l1.entries@[i].1.last_accessed
                    && self.cached().contains_key(self.l1.key_at(i)),
            forall|k: Seq<char>| #[trigger] self.l1@.contains_key(k) ==> self.l1.has(k) && 0 <= self.l1.index_of(k)
                < self.l1.entries@.len() && self.l1.key_at(self.l1.index_of(k)) == k,
            self.cached().dom().finite(),
            self.cached().dom().len() == self.size(),
    {
        self.l1.lemma_dom();
        assert forall|i: int| 0 <= i < self.l1.entries@.len() implies #[trigger] self.cached()[self.l1.key_at(i)]
            == self.l1.entries@[i].1.state && self.stamps()[self.l1.key_at(i)] == self.l1.entries@[i].1.last_accessed
            && self.cached().contains_key(self.l1.key_at(i)) by {
            self.l1.lemma_index_of(i);
        }
    }

    /// A limiter whose first level is warmed with the stored states, later
    /// ones replacing earlier ones of the same agent, and whose bans are the
    /// stored bans (agent, reason): a ban lasts until it is lifted, across
    /// restarts.
    pub fn new(
        config: RateLimitConfig,
        l1_capacity: usize,
        loaded: Vec<RateLimitState>,
        loaded_bans: Vec<(String, String)>,
    ) -> (r: Self)
        requires
            config.replenish_rate > 0,
            loaded@.len() < u64::MAX,
            forall|i: int| 0 <= i < loaded@.len() ==> (#[trigger] loaded@[i]).spec_bucket().replenish_rate > 0,
        ensures
            r.wf(),
            r.spec_config() == config,
            r.capacity() == l1_capacity,
            r.bans() == bans_of(loaded_bans@),
            r.cached().dom() == loaded@.map_values(|s: RateLimitState| s.spec_agent_id()@).to_set(),
            r.spec_stats().l1_hits == 0,
            r.spec_stats().l1_misses == 0,
            r.spec_stats().l1_evictions == 0,
    {
        let mut l1: StrMap<L1Entry> = StrMap::new();
        let mut clock: u64 = 0;
        let mut i: usize = 0;
        let ghost ids = loaded@.map_values(|s: RateLimitState| s.spec_agent_id()@);
        while i < loaded.len()
            invariant
                i <= loaded@.len(),
                loaded@.len() < u64::MAX,
                clock == i,
                l1.wf(),
                ids == loaded@.map_values(|s: RateLimitState| s.spec_agent_id()@),
                forall|j: int| 0 <= j < loaded@.len() ==> (#[trigger] loaded@[j]).spec_bucket().replenish_rate > 0,
                l1@.dom() == ids.take(i as int).to_set(),
                forall|j: int|
                    0 <= j < l1.entries@.len() ==> (#[trigger] l1.entries@[j]).1.last_accessed < clock
                        && l1.entries@[j].1.state.spec_bucket().replenish_rate > 0,
            decreases loaded@.len() - i,
        {
            let s = loaded[i].clone();
            let ghost before = l1;
            l1.insert(s.agent().clone(), L1Entry { state: s, last_accessed: clock });
            proof {
                assert(ids.take(i as int + 1) =~= ids.take(i as int).push(ids[i as int]));
                ids.take(i as int).lemma_push_to_set_commute(ids[i as int]);
                assert(ids[i as int] == loaded@[i as int].spec_agent_id()@);
                l1.lemma_pairs();
                before.lemma_pairs();
                assert forall|j: int| 0 <= j < l1.entries@.len() implies (#[trigger] l1.entries@[j]).1.last_accessed < clock
                    + 1 && l1.entries@[j].1.state.spec_bucket().replenish_rate > 0 by {
                    assert(l1.pairs()[j].1 == l1.entries@[j].1);
                    if j < before.entries@.len() {
                        assert(before.pairs()[j].1 == before.entries@[j].1);
                    }
                }
            }
            clock = clock + 1;
            i += 1;
        }
        assert(ids.take(loaded@.len() as int) =~= ids);
        let stats = HybridRateLimiterStats {
            l1_size: l1.len(),
            l1_capacity,
            l1_hits: 0,
            l1_misses: 0,
            l1_evictions: 0,
            banned_agents: Vec::new(),
        };
        let mut banned: StrMap<String> = StrMap::new();
        let mut k: usize = 0;
        proof {
            assert(loaded_bans@.take(0) =~= Seq::<(String, String)>::empty());
            assert(banned@.map_values(|r: String| r@) =~= Map::<Seq<char>, Seq<char>>::empty());
        }
        while k < loaded_bans.len()
            invariant
                k <= loaded_bans@.len(),
                banned.wf(),
                banned@.map_values(|r: String| r@) == bans_of(loaded_bans@.take(k as int)),
            decreases loaded_bans@.len() - k,
        {
            let ghost before = banned@;
            let (agent, reason) = (loaded_bans[k].0.clone(), loaded_bans[k].1.clone());
            banned.insert(agent, reason);
            proof {
                assert(loaded_bans@.take(k as int + 1).drop_last() =~= loaded_bans@.take(k as int));
                assert(loaded_bans@.take(k as int + 1).last() == loaded_bans@[k as int]);
                assert(banned@.map_values(|r: String| r@) =~= before.map_values(|r: String| r@).insert(
                    loaded_bans@[k as int].0@,
                    loaded_bans@[k as int].1@,
                ));
            }
            k += 1;
        }
        assert(loaded_bans@.take(loaded_bans@.len() as int) =~= loaded_bans@);
        let mut r = HybridRateLimiter { store: RateLimitStore::new(), config, l1, l1_capacity, banned, clock, stats };
        r.stats.banned_agents = r.banned_names();
        proof {
            assert(r.cached().dom() =~= r.l1@.dom());
        }
        r
    }

    /// A ban holds over any run of checks: when each check of a banned agent
    /// refuses it and keeps the bans (as `check_cached` does), every check of
    /// a run that starts with the agent banned is refused, and the agent is
    /// still banned at the end.
    pub proof fn law_ban_holds_over_checks(runs: Seq<Self>, answers: Seq<Option<RateLimitDecision>>, agent: Seq<char>)
        requires
            runs.len() == answers.len() + 1,
            runs[0].bans().contains_key(agent),
            forall|i: int|
                0 <= i < answers.len() && #[trigger] runs[i].bans().contains_key(agent) ==> answers[i] == Some(
                    banned_decision(),
                ) && runs[i + 1].bans() == runs[i].bans(),
        ensures
            forall|i: int| 0 <= i < answers.len() ==> #[trigger] answers[i] == Some(banned_decision()),
            runs[runs.len() - 1].bans().contains_key(agent),
    {
        assert forall|i: int| 0 <= i < runs.len() implies #[trigger] runs[i].bans().contains_key(agent) by {
            Self::lemma_still_banned(runs, answers, agent, i);
        }
        assert forall|i: int| 0 <= i < answers.len() implies #[trigger] answers[i] == Some(banned_decision()) by {
            assert(runs[i].bans().contains_key(agent));
        }
    }

    proof fn lemma_still_banned(runs: Seq<Self>, answers: Seq<Option<RateLimitDecision>>, agent: Seq<char>, i: int)
        requires
            runs.len() == answers.len() + 1,
            runs[0].bans().contains_key(agent),
            forall|i: int|
                0 <= i < answers.len() && #[trigger] runs[i].bans().contains_key(agent) ==> answers[i] == Some(
                    banned_decision(),
                ) && runs[i + 1].bans() == runs[i].bans(),
            0 <= i < runs.len(),
        ensures
            runs[i].bans().contains_key(agent),
        decreases i,
    {
        if i > 0 {
            Self::lemma_still_banned(runs, answers, agent, i - 1);
        }
    }

    /// The first step of a check: a banned agent is refused for an hour; an
    /// agent whose bucket is cached is checked against it (a hit, and the
    /// bucket becomes the most recently used); otherwise `None` (a miss),
    /// and the caller loads the stored state and calls `check_loaded`.
    pub fn check_cached(&mut self, agent_id: &str) -> (r: Option<RateLimitDecision>)
        requires
            old(self).wf(),
            old(self).has_room(),
        ensures
            final(self).wf(),
            final(self).spec_config() == old(self).spec_config(),
            final(self).capacity() == old(self).capacity(),
            final(self).bans() == old(self).bans(),
            final(self).ban_order() == old(self).ban_order(),
            final(self).spec_stats().l1_evictions == old(self).spec_stats().l1_evictions,
            old(self).bans().contains_key(agent_id@) ==> r == Some(banned_decision()) && final(self).cached()
                == old(self).cached() && final(self).stamps() == old(self).stamps() && final(self).clock() == old(self).clock() && final(self).spec_stats().l1_hits == old(self).spec_stats().l1_hits
                && final(self).spec_stats().l1_misses == old(self).spec_stats().l1_misses,
            !old(self).bans().contains_key(agent_id@) && old(self).cached().contains_key(agent_id@) ==> (r matches Some(d) && check_step(old(self).cached()[agent_id@], 1, d, final(self).cached()[agent_id@])) && final(self).cached() == old(self).cached().insert(agent_id@, final(self).cached()[agent_id@]) && final(self).stamps()
                == old(self).stamps().insert(agent_id@, old(self).clock()) && final(self).clock() == old(self).clock()
                + 1 && final(self).spec_stats().l1_hits == old(self).spec_stats().l1_hits + 1
                && final(self).spec_stats().l1_misses == old(self).spec_stats().l1_misses,
            !old(self).bans().contains_key(agent_id@) && !old(self).cached().contains_key(agent_id@) ==> r is None
                && final(self).cached() == old(self).cached() && final(self).stamps() == old(self).stamps() && final(self).clock() == old(self).clock() && final(self).spec_stats().l1_hits == old(self).spec_stats().l1_hits
                && final(self).spec_stats().l1_misses == old(self).spec_stats().l1_misses + 1,
    {
        proof {
            self.lemma_views();
            self.banned.lemma_dom();
        }
        if self.banned.contains(agent_id) {
            return Some(RateLimitDecision { allowed: false, retry_after: Some(TimeSpan::from_secs(3600)) });
        }
        match self.l1.find(agent_id) {
            Some(i) => {
                let ghost old_self = *self;
                let mut e = self.l1.entries[i].1.clone();
                let d = e.state.check(1);
                e.last_accessed = self.clock;
                let ghost new_e = e;
                self.l1.set_value(i, e);
                self.clock = self.clock + 1;
                self.stats.l1_hits = self.stats.l1_hits + 1;
                proof {
                    assert(old_self.l1.key_at(i as int) == agent_id@);
                    self.l1.lemma_pairs();
                    old_self.l1.lemma_pairs();
                    assert forall|j: int| 0 <= j < self.l1.entries@.len() implies (#[trigger] self.l1.entries@[j]).1.last_accessed
                        < self.clock && self.l1.entries@[j].1.state.spec_bucket().replenish_rate > 0 by {
                        assert(self.l1.pairs()[j].1 == self.l1.entries@[j].1);
                        assert(old_self.l1.pairs()[j].1 == old_self.l1.entries@[j].1);
                    }
                    assert(self.cached() =~= old_self.cached().insert(agent_id@, new_e.state));
                    assert(self.stamps() =~= old_self.stamps().insert(agent_id@, old_self.clock));
                }
                Some(d)
            },
            None => {
                self.stats.l1_misses = self.stats.l1_misses + 1;
                None
            },
        }
    }

    /// Removes the least recently used bucket from the first level, if any,
    /// and returns it with its agent so the caller can store it.
    pub fn evict_lru(&mut self) -> (r: Option<(String, RateLimitState)>)
        requires
            old(self).wf(),
            old(self).has_room(),
        ensures
            final(self).wf(),
            final(self).spec_config() == old(self).spec_config(),
            final(self).capacity() == old(self).capacity(),
            final(self).bans() == old(self).bans(),
            final(self).ban_order() == old(self).ban_order(),
            final(self).clock() == old(self).clock(),
            final(self).spec_stats().l1_hits == old(self).spec_stats().l1_hits,
            final(self).spec_stats().l1_misses == old(self).spec_stats().l1_misses,
            r is None <==> old(self).size() == 0,
            r is None ==> final(self).cached() == old(self).cached() && final(self).stamps() == old(self).stamps()
                && final(self).spec_stats().l1_evictions == old(self).spec_stats().l1_evictions,
            r matches Some((k, s)) ==> old(self).is_lru(k@) && s == old(self).cached()[k@] && final(self).cached()
                == old(self).cached().remove(k@) && final(self).stamps() == old(self).stamps().remove(k@) && final(self).spec_stats().l1_evictions == old(self).spec_stats().l1_evictions + 1,
    {
        proof {
            self.lemma_views();
        }
        let n = self.l1.len();
        if n == 0 {
            return None;
        }
        let mut best: usize = 0;
        let mut i: usize = 1;
        while i < n
            invariant
                n == self.l1.entries@.len(),
                0 <= best < n,
                1 <= i <= n,
                forall|j: int| 0 <= j < i ==> self.l1.entries@[best as int].1.last_accessed <= (
                #[trigger] self.l1.entries@[j]).1.last_accessed,
            decreases n - i,
        {
            if self.l1.entries[i].1.last_accessed < self.l1.entries[best].1.last_accessed {
                best = i;
            }
            i += 1;
        }
        let ghost old_self = *self;
        let ghost k = old_self.l1.key_at(best as int);
        proof {
            assert forall|k2: Seq<char>| #[trigger] old_self.stamps().contains_key(k2) implies old_self.stamps()[k]
                <= old_self.stamps()[k2] by {
                let j = old_self.l1.index_of(k2);
                assert(old_self.l1@.contains_key(k2));
                assert(old_self.stamps()[old_self.l1.key_at(j)] == old_self.l1.entries@[j].1.last_accessed);
            }
        }
        let key = self.l1.entries[best].0.clone();
        let e = self.l1.remove_at(best);
        self.stats.l1_evictions = self.stats.l1_evictions + 1;
        self.stats.l1_size = self.l1.len();
        proof {
            self.l1.lemma_pairs();
            old_self.l1.lemma_pairs();
            assert forall|j: int| 0 <= j < self.l1.entries@.len() implies (#[trigger] self.l1.entries@[j]).1.last_accessed
                < self.clock && self.l1.entries@[j].1.state.spec_bucket().replenish_rate > 0 by {
                assert(self.l1.pairs()[j].1 == self.l1.entries@[j].1);
                if j < best {
                    assert(old_self.l1.pairs()[j].1 == old_self.l1.entries@[j].1);
                } else {
                    assert(old_self.l1.pairs()[j + 1].1 == old_self.l1.entries@[j + 1].1);
                }
            }
            assert(self.cached() =~= old_self.cached().remove(k));
            assert(self.stamps() =~= old_self.stamps().remove(k));
        }
        Some((key, e.state))
    }

    /// The second step of a check after a miss: the stored state, or a fresh
    /// bucket from the configuration when none was stored, is checked and
    /// cached as the most recently used; when the first level is full, its
    /// least recently used bucket is evicted first and returned for storing.
    #[verifier::spinoff_prover]
    #[verifier::rlimit(50)]
    pub fn check_loaded(&mut self, agent_id: &str, loaded: Option<RateLimitState>) -> (r: (
        RateLimitDecision,
        Option<(String, RateLimitState)>,
    ))
        requires
            old(self).wf(),
            old(self).has_room(),
            !old(self).cached().contains_key(agent_id@),
            loaded matches Some(s) ==> s.spec_bucket().replenish_rate > 0,
        ensures
            final(self).wf(),
            final(self).spec_config() == old(self).spec_config(),
            final(self).capacity() == old(self).capacity(),
            final(self).bans() == old(self).bans(),
            final(self).ban_order() == old(self).ban_order(),
            final(self).clock() == old(self).clock() + 1,
            final(self).spec_stats().l1_hits == old(self).spec_stats().l1_hits,
            final(self).spec_stats().l1_misses == old(self).spec_stats().l1_misses,
            final(self).cached().contains_key(agent_id@),
            final(self).stamps()[agent_id@] == old(self).clock(),
            match loaded {
                Some(s) => check_step(s, 1, r.0, final(self).cached()[agent_id@]),
                None => exists|s: RateLimitState| #[trigger] fresh_state(s, agent_id@, old(self).spec_config()) && check_step(
                    s,
                    1,
                    r.0,
                    final(self).cached()[agent_id@],
                ),
            },
            (old(self).size() >= old(self).capacity() && old(self).size() > 0) <==> r.1 is Some,
            final(self).size() == if r.1 is Some {
                old(self).size()
            } else {
                old(self).size() + 1
            },
            old(self).capacity() > 0 && old(self).size() <= old(self).capacity() ==> final(self).size() <= final(self).capacity(),
            r.1 is None ==> final(self).cached() == old(self).cached().insert(agent_id@, final(self).cached()[agent_id@])
                && final(self).stamps() == old(self).stamps().insert(agent_id@, old(self).clock()) && final(self).spec_stats().l1_evictions == old(self).spec_stats().l1_evictions,
            r.1 matches Some((k, s)) ==> old(self).is_lru(k@) && s == old(self).cached()[k@] && final(self).cached()
                == old(self).cached().remove(k@).insert(agent_id@, final(self).cached()[agent_id@]) && final(self).stamps() == old(self).stamps().remove(k@).insert(agent_id@, old(self).clock()) && final(self).spec_stats().l1_evictions == old(self).spec_stats().l1_evictions + 1,
    {
        let mut state = match loaded {
            Some(s) => s,
            None => RateLimitState::new(agent_id, self.config.max_tokens, self.config.replenish_rate),
        };
        let ghost start = state;
        assert(loaded matches Some(s) ==> s == start);
        proof {
            self.lemma_views();
        }
        let evicted = if self.l1.len() >= self.l1_capacity {
            self.evict_lru()
        } else {
            None
        };
        let ghost mid = *self;
        proof {
            mid.lemma_views();
        }
        let d = state.check(1);
        let ghost checked = state;
        self.l1.insert(owned(agent_id), L1Entry { state, last_accessed: self.clock });
        self.clock = self.clock + 1;
        self.stats.l1_size = self.l1.len();
        proof {
            self.l1.lemma_pairs();
            mid.l1.lemma_pairs();
            assert(!mid.l1.has(agent_id@));
            assert(self.l1.entries@.len() == mid.l1.entries@.len() + 1);
            assert forall|j: int| 0 <= j < self.l1.entries@.len() implies (#[trigger] self.l1.entries@[j]).1.last_accessed
                < self.clock && self.l1.entries@[j].1.state.spec_bucket().replenish_rate > 0 by {
                assert(self.l1.pairs()[j].1 == self.l1.entries@[j].1);
                if j < mid.l1.entries@.len() {
                    assert(mid.l1.pairs()[j].1 == mid.l1.entries@[j].1);
                }
            }
            assert(self.cached() =~= mid.cached().insert(agent_id@, checked));
            assert(self.stamps() =~= mid.stamps().insert(agent_id@, mid.clock));
            assert(self.cached()[agent_id@] == checked);
            assert(check_step(start, 1, d, checked));
            if loaded is None {
                assert(fresh_state(start, agent_id@, self.config));
            } else {
                assert(loaded->Some_0 == start);
                assert(check_step(loaded->Some_0, 1, d, self.cached()[agent_id@]));
            }
            assert(loaded matches Some(s) ==> check_step(s, 1, d, self.cached()[agent_id@]));
        }
        (d, evicted)
    }

    /// Adds the tokens earned over `elapsed` to every cached bucket.
    pub fn replenish_all(&mut self, elapsed: TimeSpan)
        requires
            old(self).wf(),
            elapsed.wf(),
            forall|k: Seq<char>| #[trigger] old(self).cached().contains_key(k) ==> old(self).cached()[k].spec_bucket().tokens
                + earned(elapsed, old(self).cached()[k].spec_bucket().replenish_rate) <= u64::MAX,
        ensures
            final(self).wf(),
            final(self).spec_config() == old(self).spec_config(),
            final(self).capacity() == old(self).capacity(),
            final(self).bans() == old(self).bans(),
            final(self).ban_order() == old(self).ban_order(),
            final(self).clock() == old(self).clock(),
            final(self).stamps() == old(self).stamps(),
            final(self).spec_stats() == old(self).spec_stats(),
            final(self).cached().dom() == old(self).cached().dom(),
            forall|k: Seq<char>| #[trigger] old(self).cached().contains_key(k) ==> replenish_step(
                old(self).cached()[k],
                elapsed,
                final(self).cached()[k],
            ),
    {
        let ghost old_self = *self;
        proof {
            old_self.lemma_views();
        }
        let n = self.l1.len();
        let mut i: usize = 0;
        while i < n
            invariant
                old_self.wf(),
                elapsed.wf(),
                n == old_self.l1.entries@.len(),
                i <= n,
                self.l1.wf(),
                self.l1.entries@.len() == n,
                self.config == old_self.config,
                self.l1_capacity == old_self.l1_capacity,
                self.banned == old_self.banned,
                self.clock == old_self.clock,
                self.stats == old_self.stats,
                forall|k: Seq<char>| #[trigger] old_self.cached().contains_key(k) ==> old_self.cached()[k].spec_bucket().tokens
                    + earned(elapsed, old_self.cached()[k].spec_bucket().replenish_rate) <= u64::MAX,
                forall|j: int| 0 <= j < n ==> #[trigger] self.l1.key_at(j) == old_self.l1.key_at(j),
                forall|j: int|
                    0 <= j < n ==> (#[trigger] self.l1.entries@[j]).1.last_accessed == old_self.l1.entries@[j].1.last_accessed,
                forall|j: int| 0 <= j < i ==> replenish_step(old_self.l1.entries@[j].1.state, elapsed, (#[trigger] self.l1.entries@[j]).1.state),
                forall|j: int| i <= j < n ==> (#[trigger] self.l1.entries@[j]).1.state == old_self.l1.entries@[j].1.state,
            decreases n - i,
        {
            let ghost before = self.l1;
            let mut e = self.l1.entries[i].1.clone();
            proof {
                old_self.lemma_views();
                assert(old_self.cached().contains_key(old_self.l1.key_at(i as int)));
                assert(old_self.cached()[old_self.l1.key_at(i as int)] == old_self.l1.entries@[i as int].1.state);
            }
            e.state.replenish(elapsed);
            self.l1.set_value(i, e);
            proof {
                self.l1.lemma_pairs();
                before.lemma_pairs();
                assert forall|j: int| 0 <= j < n implies #[trigger] self.l1.key_at(j) == old_self.l1.key_at(j)
                    && self.l1.entries@[j].1.last_accessed == old_self.l1.entries@[j].1.last_accessed by {
                    assert(self.l1.pairs()[j] == self.l1.pairs()[j]);
                    assert(self.l1.pairs()[j].0 == self.l1.key_at(j));
                    assert(before.pairs()[j].0 == before.key_at(j));
                    assert(self.l1.pairs()[j].1 == self.l1.entries@[j].1);
                    assert(before.pairs()[j].1 == before.entries@[j].1);
                }
                assert forall|j: int| 0 <= j < n && j != i implies (#[trigger] self.l1.entries@[j]).1 == before.entries@[j].1 by {
                    assert(self.l1.pairs()[j].1 == self.l1.entries@[j].1);
                    assert(before.pairs()[j].1 == before.entries@[j].1);
                }
                assert(self.l1.pairs()[i as int].1 == self.l1.entries@[i as int].1);
            }
            i += 1;
        }
        proof {
            self.lemma_views();
            assert forall|k: Seq<char>| #[trigger] old_self.cached().contains_key(k) implies replenish_step(
                old_self.cached()[k],
                elapsed,
                self.cached()[k],
            ) by {
                let j = old_self.l1.index_of(k);
                assert(old_self.l1@.contains_key(k));
                assert(old_self.cached()[old_self.l1.key_at(j)] == old_self.l1.entries@[j].1.state);
                assert(self.l1.key_at(j) == k);
                assert(self.cached()[self.l1.key_at(j)] == self.l1.entries@[j].1.state);
            }
            assert(self.cached().dom() =~= old_self.cached().dom()) by {
                assert forall|k: Seq<char>| self.l1@.contains_key(k) == old_self.l1@.contains_key(k) by {
                    if self.l1@.contains_key(k) {
                        let j = self.l1.index_of(k);
                        assert(old_self.l1.key_at(j) == k);
                        old_self.l1.lemma_index_of(j);
                    }
                    if old_self.l1@.contains_key(k) {
                        let j = old_self.l1.index_of(k);
                        assert(self.l1.key_at(j) == k);
                        self.l1.lemma_index_of(j);
                    }
                }
            }
            assert(self.stamps() =~= old_self.stamps()) by {
                assert forall|k: Seq<char>| #[trigger] self.stamps().contains_key(k) implies self.stamps()[k]
                    == old_self.stamps()[k] by {
                    let j = self.l1.index_of(k);
                    assert(old_self.l1.key_at(j) == k);
                    old_self.l1.lemma_index_of(j);
                }
            }
        }
    }

    /// The names of the banned agents, in ban order.
    fn banned_names(&self) -> (r: Vec<String>)
        ensures
            views(r@) == key_views(self.banned.pairs()),
    {
        let mut out: Vec<String> = Vec::new();
        let mut i: usize = 0;
        while i < self.banned.entries.len()
            invariant
                i <= self.banned.entries@.len(),
                views(out@) == key_views(self.banned.pairs()).take(i as int),
            decreases self.banned.entries@.len() - i,
        {
            let name = self.banned.entries[i].0.clone();
            proof {
                self.banned.lemma_pairs();
                assert(key_views(self.banned.pairs())[i as int] == name@);
                assert(views(out@.push(name)) =~= views(out@).push(name@));
                assert(key_views(self.banned.pairs()).take(i as int + 1) =~= key_views(self.banned.pairs()).take(
                    i as int,
                ).push(name@));
                assert(views(out@.push(name)) =~= key_views(self.banned.pairs()).take(i as int + 1));
            }
            out.push(name);
            i += 1;
        }
        assert(key_views(self.banned.pairs()).take(self.banned.entries@.len() as int) =~= key_views(self.banned.pairs()));
        out
    }

    /// Bans an agent until it is unbanned: its cached bucket is dropped and
    /// its requests are refused.
    pub fn ban_agent(&mut self, agent_id: &str, reason: &str)
        requires
            old(self).wf(),
        ensures
            final(self).wf(),
            final(self).spec_config() == old(self).spec_config(),
            final(self).capacity() == old(self).capacity(),
            final(self).clock() == old(self).clock(),
            final(self).bans() == old(self).bans().insert(agent_id@, reason@),
            final(self).cached() == old(self).cached().remove(agent_id@),
            final(self).stamps() == old(self).stamps().remove(agent_id@),
            final(self).spec_stats().l1_hits == old(self).spec_stats().l1_hits,
            final(self).spec_stats().l1_misses == old(self).spec_stats().l1_misses,
            final(self).spec_stats().l1_evictions == old(self).spec_stats().l1_evictions,
            old(self).bans().contains_key(agent_id@) ==> final(self).ban_order() == old(self).ban_order(),
            !old(self).bans().contains_key(agent_id@) ==> final(self).ban_order() == old(self).ban_order().push(agent_id@),
    {
        let ghost old_self = *self;
        proof {
            old_self.banned.lemma_dom();
            old_self.lemma_views();
        }
        let ghost had = self.banned.has(agent_id@);
        self.banned.insert(owned(agent_id), owned(reason));
        self.l1.remove(agent_id);
        self.stats.banned_agents = self.banned_names();
        self.stats.l1_size = self.l1.len();
        proof {
            assert(self.bans() =~= old_self.bans().insert(agent_id@, reason@));
            assert(self.cached() =~= old_self.cached().remove(agent_id@));
            assert(self.stamps() =~= old_self.stamps().remove(agent_id@));
            if had {
                assert(self.ban_order() =~= old_self.ban_order());
            } else {
                assert(self.ban_order() =~= old_self.ban_order().push(agent_id@));
            }
            assert(old_self.banned@.contains_key(agent_id@) == had);
            self.l1.lemma_pairs();
            old_self.l1.lemma_pairs();
            assert forall|j: int| 0 <= j < self.l1.entries@.len() implies (#[trigger] self.l1.entries@[j]).1.last_accessed
                < self.clock && self.l1.entries@[j].1.state.spec_bucket().replenish_rate > 0 by {
                assert(self.l1.pairs()[j].1 == self.l1.entries@[j].1);
                if j < old_self.l1.index_of(agent_id@) || !old_self.l1.has(agent_id@) {
                    assert(old_self.l1.pairs()[j].1 == old_self.l1.entries@[j].1);
                } else {
                    assert(old_self.l1.pairs()[j + 1].1 == old_self.l1.entries@[j + 1].1);
                }
            }
        }
    }

    /// Lifts a ban.
    pub fn unban_agent(&mut self, agent_id: &str)
        requires
            old(self).wf(),
        ensures
            final(self).wf(),
            final(self).spec_config() == old(self).spec_config(),
            final(self).capacity() == old(self).capacity(),
            final(self).clock() == old(self).clock(),
            final(self).bans() == old(self).bans().remove(agent_id@),
            final(self).cached() == old(self).cached(),
            final(self).stamps() == old(self).stamps(),
            final(self).spec_stats().l1_hits == old(self).spec_stats().l1_hits,
            final(self).spec_stats().l1_misses == old(self).spec_stats().l1_misses,
            final(self).spec_stats().l1_evictions == old(self).spec_stats().l1_evictions,
    {
        let ghost old_self = *self;
        self.banned.remove(agent_id);
        self.stats.banned_agents = self.banned_names();
        proof {
            assert(self.bans() =~= old_self.bans().remove(agent_id@));
        }
    }

    /// Current statistics.
    pub fn stats(&self) -> (r: HybridRateLimiterStats)
        requires
            self.wf(),
        ensures
            r.l1_size == self.size(),
            r.l1_capacity == self.capacity(),
            r.l1_hits == self.spec_stats().l1_hits,
            r.l1_misses == self.spec_stats().l1_misses,
            r.l1_evictions == self.spec_stats().l1_evictions,
            views(r.banned_agents@) == self.ban_order(),
    {
        self.stats.clone()
    }

    /// Whether the counters can take another check.
    pub fn has_headroom(&self) -> (r: bool)
        ensures
            r == self.has_room(),
    {
        self.clock < u64::MAX && self.stats.l1_hits < u64::MAX && self.stats.l1_misses < u64::MAX
            && self.stats.l1_evictions < u64::MAX
    }

    /// The underlying store.
    pub fn store(&self) -> &RateLimitStore {
        &self.store
    }

    /// Empties the first level.
    pub fn clear_l1_for_testing(&mut self)
        requires
            old(self).wf(),
        ensures
            final(self).wf(),
            final(self).cached() == Map::<Seq<char>, RateLimitState>::empty(),
            final(self).bans() == old(self).bans(),
            final(self).spec_stats().l1_hits == old(self).spec_stats().l1_hits,
            final(self).spec_stats().l1_misses == old(self).spec_stats().l1_misses,
    {
        self.l1 = StrMap::new();
        self.stats.l1_size = 0;
        assert(self.cached() =~= Map::<Seq<char>, RateLimitState>::empty());
    }
}

} // verus!
