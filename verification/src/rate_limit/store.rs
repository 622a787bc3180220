//! Reading stored rate limit state.
//!
//! Stored state survives restarts. The application reads the stored fields
//! and hands them here; missing fields take the defaults the store has always
//! used.

use vstd::prelude::*;
use crate::rate_limit::{RateLimitState, TokenBucket};
use crate::text::owned;
use crate::time::instant_now;

verus! {

/// Storage kind of bucket records (named by agent).
pub const KIND_RATE_LIMIT: &'static str = "EnvoyRateLimit";

/// Storage kind of ban records (named by agent, with the reason).
pub const KIND_RATE_LIMIT_BAN: &'static str = "EnvoyRateLimitBan";

/// The bans stored records hold: each record named by an agent whose
/// reason reads as text, in stored order (one without a reason is skipped).
pub open spec fn stored_bans(records: Seq<(String, Option<String>)>) -> Seq<(String, String)>
    decreases records.len(),
{
    if records.len() == 0 {
        Seq::empty()
    } else {
        let prev = stored_bans(records.drop_last());
        match records.last().1 {
            Some(reason) => prev.push((records.last().0, reason)),
            None => prev,
        }
    }
}

/// Persistent store for rate limit state.
pub struct RateLimitStore;

impl Default for RateLimitStore {
    fn default() -> Self {
        RateLimitStore
    }
}

impl RateLimitStore {
    pub fn new() -> Self {
        RateLimitStore
    }

    /// The store name of an agent's ban record: the agent's ID. Banning
    /// writes the record with the reason (replacing an older one), lifting
    /// the ban deletes it.
    pub fn ban_record_name(&self, agent_id: &str) -> (r: String)
        ensures
            r@ == agent_id@,
    {
        owned(agent_id)
    }

    /// The bans to load at start-up from the stored ban records (agent, and
    /// the reason where it reads as text).
    pub fn load_bans(&self, records: Vec<(String, Option<String>)>) -> (r: Vec<(String, String)>)
        ensures
            r@ == stored_bans(records@),
    {
        let mut out: Vec<(String, String)> = Vec::new();
        let mut i: usize = 0;
        let ghost all = records@;
        proof {
            assert(all.take(0) =~= Seq::<(String, Option<String>)>::empty());
        }
        while i < records.len()
            invariant
                i <= records@.len(),
                records@ == all,
                out@ == stored_bans(all.take(i as int)),
            decreases records@.len() - i,
        {
            proof {
                assert(all.take(i as int + 1).drop_last() =~= all.take(i as int));
                assert(all.take(i as int + 1).last() == all[i as int]);
            }
            match &records[i].1 {
                Some(reason) => {
                    out.push((records[i].0.clone(), reason.clone()));
                },
                None => {},
            }
            i += 1;
        }
        assert(all.take(all.len() as int) =~= all);
        out
    }

    /// The state of `agent_id` from its stored fields: a missing token count
    /// reads as 0, a missing capacity as 1000, a missing rate as 100.
    pub fn state_from_record(
        &self,
        agent_id: String,
        tokens: Option<u64>,
        max_tokens: Option<u64>,
        replenish_rate: Option<u64>,
    ) -> (s: RateLimitState)
        ensures
            s.spec_agent_id() == agent_id,
            s.spec_bucket().tokens == match tokens { Some(t) => t, None => 0 },
            s.spec_bucket().max_tokens == match max_tokens { Some(t) => t, None => 1000 },
            s.spec_bucket().replenish_rate == match replenish_rate { Some(t) => t, None => 100 },
    {
        let bucket = TokenBucket {
            tokens: match tokens { Some(t) => t, None => 0 },
            max_tokens: match max_tokens { Some(t) => t, None => 1000 },
            replenish_rate: match replenish_rate { Some(t) => t, None => 100 },
            last_replenish: instant_now(),
        };
        RateLimitState::from_bucket(agent_id, bucket)
    }
}

} // verus!
