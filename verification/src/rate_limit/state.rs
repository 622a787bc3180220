//! Rate limit state types — token bucket and per-agent state.

use vstd::prelude::*;
use crate::text::owned;
use crate::time::{TimeSpan, instant_now};

verus! {

/// Tokens earned over `elapsed` at `rate` tokens per second, rounded down and
/// capped at `u64::MAX`.
pub open spec fn earned(elapsed: TimeSpan, rate: u64) -> int {
    let exact = elapsed.total_nanos() * rate / 1_000_000_000;
    if exact > u64::MAX { u64::MAX as int } else { exact }
}

/// `deficit / rate` seconds in nanoseconds, rounded to the nearest nanosecond
/// (halves up).
pub open spec fn wait_nanos(deficit: int, rate: int) -> int {
    (deficit * 1_000_000_000 + rate / 2) / rate
}

/// Token bucket for rate limiting.
///
/// Tokens replenish over time based on `replenish_rate` (tokens/second).
/// Capacity is capped at `max_tokens`.
#[derive(Debug)]
pub struct TokenBucket {
    pub tokens: u64,
    pub max_tokens: u64,
    pub replenish_rate: u64,
    pub last_replenish: std::time::Instant,
}

impl Clone for TokenBucket {
    fn clone(&self) -> (r: Self)
        ensures
            r == *self,
    {
        TokenBucket {
            tokens: self.tokens,
            max_tokens: self.max_tokens,
            replenish_rate: self.replenish_rate,
            last_replenish: self.last_replenish,
        }
    }
}

impl TokenBucket {
    pub fn new(max_tokens: u64, replenish_rate: u64) -> (b: Self)
        ensures
            b.tokens == max_tokens,
            b.max_tokens == max_tokens,
            b.replenish_rate == replenish_rate,
    {
        TokenBucket { tokens: max_tokens, max_tokens, replenish_rate, last_replenish: instant_now() }
    }

    /// Replenish tokens based on elapsed time; the bucket never rises above
    /// `max_tokens` this way.
    pub fn replenish(&mut self, elapsed: TimeSpan)
        requires
            elapsed.wf(),
            old(self).tokens + earned(elapsed, old(self).replenish_rate) <= u64::MAX,
        ensures
            bucket_replenish_step(*old(self), elapsed, *final(self)),
    {
        let rate = self.replenish_rate as u128;
        let s128 = elapsed.secs as u128;
        let n128 = elapsed.nanos as u128;
        assert(s128 * rate <= 0xffff_ffff_ffff_ffff * 0xffff_ffff_ffff_ffff) by (nonlinear_arith)
            requires s128 <= 0xffff_ffff_ffff_ffff, rate <= 0xffff_ffff_ffff_ffff;
        assert(n128 * rate <= 1_000_000_000 * 0xffff_ffff_ffff_ffff) by (nonlinear_arith)
            requires n128 <= 1_000_000_000, rate <= 0xffff_ffff_ffff_ffff;
        let whole: u128 = s128 * rate;
        let part: u128 = n128 * rate / 1_000_000_000u128;
        proof {
            lemma_earned_split(elapsed.secs as int, elapsed.nanos as int, rate as int);
            assert(whole <= (u64::MAX as int) * (u64::MAX as int)) by (nonlinear_arith)
                requires whole == elapsed.secs as int * rate as int, elapsed.secs <= u64::MAX, rate <= u64::MAX;
            assert(part < 0x1_0000_0000_0000_0000) by (nonlinear_arith)
                requires part == elapsed.nanos as int * rate as int / 1_000_000_000, elapsed.nanos < 1_000_000_000, rate <= u64::MAX;
        }
        let exact: u128 = whole + part;
        let to_add: u64 = if exact > u64::MAX as u128 { u64::MAX } else { exact as u64 };
        assert(to_add == earned(elapsed, self.replenish_rate));
        let sum = self.tokens + to_add;
        self.tokens = if sum < self.max_tokens { sum } else { self.max_tokens };
        self.last_replenish = instant_now();
    }

    /// Consume tokens, stopping at zero.
    pub fn consume(&mut self, amount: u64)
        ensures
            final(self).max_tokens == old(self).max_tokens,
            final(self).replenish_rate == old(self).replenish_rate,
            final(self).last_replenish == old(self).last_replenish,
            final(self).tokens == if old(self).tokens >= amount { old(self).tokens - amount } else { 0 },
    {
        self.tokens = self.tokens.saturating_sub(amount);
    }

    /// Try to consume tokens, returning the tokens left as the error if
    /// insufficient.
    pub fn try_consume(&mut self, amount: u64) -> (r: Result<(), u64>)
        ensures
            final(self).max_tokens == old(self).max_tokens,
            final(self).replenish_rate == old(self).replenish_rate,
            final(self).last_replenish == old(self).last_replenish,
            old(self).tokens >= amount ==> r is Ok && final(self).tokens == old(self).tokens - amount,
            old(self).tokens < amount ==> r == Err::<(), u64>(old(self).tokens) && final(self).tokens == old(self).tokens,
    {
        if self.tokens >= amount {
            self.tokens -= amount;
            Ok(())
        } else {
            Err(self.tokens)
        }
    }
}

proof fn lemma_earned_split(secs: int, nanos: int, rate: int)
    requires
        secs >= 0,
        0 <= nanos < 1_000_000_000,
        rate >= 0,
    ensures
        (secs * 1_000_000_000 + nanos) * rate / 1_000_000_000 == secs * rate + nanos * rate / 1_000_000_000,
{
    assert((secs * 1_000_000_000 + nanos) * rate == (secs * rate) * 1_000_000_000 + nanos * rate) by (nonlinear_arith);
    let b = nanos * rate;
    let a = secs * rate;
    vstd::arithmetic::div_mod::lemma_fundamental_div_mod(b, 1_000_000_000);
    assert(b % 1_000_000_000 >= 0 && b % 1_000_000_000 < 1_000_000_000) by {
        vstd::arithmetic::div_mod::lemma_mod_bound(b, 1_000_000_000);
    }
    assert(a * 1_000_000_000 + b == 1_000_000_000 * (a + b / 1_000_000_000) + b % 1_000_000_000) by (nonlinear_arith)
        requires b == 1_000_000_000 * (b / 1_000_000_000) + b % 1_000_000_000;
    vstd::arithmetic::div_mod::lemma_div_multiples_vanish_fancy(a + b / 1_000_000_000, b % 1_000_000_000, 1_000_000_000);
}

/// Rate limit decision result.
#[derive(Debug, Clone, Copy, PartialEq, Eq)]
pub struct RateLimitDecision {
    pub allowed: bool,
    pub retry_after: Option<TimeSpan>,
}

/// `t` is `s` after a check of `cost` tokens that answered `d`: a request
/// is allowed exactly when the bucket holds `cost` tokens, and then takes
/// them; a refused one leaves the bucket as it was and is told to retry
/// after the deficit divided by the replenish rate, in seconds.
pub open spec fn check_step(s: RateLimitState, cost: u64, d: RateLimitDecision, t: RateLimitState) -> bool {
    let b = s.spec_bucket();
    let c = t.spec_bucket();
    &&& t.spec_agent_id() == s.spec_agent_id()
    &&& c.max_tokens == b.max_tokens
    &&& c.replenish_rate == b.replenish_rate
    &&& d.allowed == (b.tokens >= cost)
    &&& d.allowed ==> d.retry_after is None && c.tokens == b.tokens - cost && c.last_replenish == b.last_replenish
    &&& !d.allowed ==> c == b && (d.retry_after matches Some(w) && w.wf() && w.total_nanos() == wait_nanos(
        cost - b.tokens,
        b.replenish_rate as int,
    ))
}

/// `c` is bucket `b` with the tokens earned over `elapsed` added, up to
/// its capacity.
pub open spec fn bucket_replenish_step(b: TokenBucket, elapsed: TimeSpan, c: TokenBucket) -> bool {
    &&& c.max_tokens == b.max_tokens
    &&& c.replenish_rate == b.replenish_rate
    &&& c.tokens == if b.tokens + earned(elapsed, b.replenish_rate) <= b.max_tokens {
        b.tokens + earned(elapsed, b.replenish_rate)
    } else {
        b.max_tokens as int
    }
}

/// `t` is `s` with the tokens earned over `elapsed` added, up to the
/// bucket's capacity.
pub open spec fn replenish_step(s: RateLimitState, elapsed: TimeSpan, t: RateLimitState) -> bool {
    &&& t.spec_agent_id() == s.spec_agent_id()
    &&& bucket_replenish_step(s.spec_bucket(), elapsed, t.spec_bucket())
}

/// Replenishing a state replenishes its bucket as the bucket's own
/// `replenish` does: the same tokens, capacity and rate, and the agent
/// stays.
pub proof fn law_state_replenish_matches_bucket(s: RateLimitState, elapsed: TimeSpan, t: RateLimitState, c: TokenBucket)
    requires
        replenish_step(s, elapsed, t),
        bucket_replenish_step(s.spec_bucket(), elapsed, c),
    ensures
        t.spec_bucket().tokens == c.tokens,
        t.spec_bucket().max_tokens == c.max_tokens,
        t.spec_bucket().replenish_rate == c.replenish_rate,
        t.spec_agent_id() == s.spec_agent_id(),
{
}

/// Per-agent rate limit state.
#[derive(Debug)]
pub struct RateLimitState {
    pub agent_id: String,
    bucket: TokenBucket,
}

impl Clone for RateLimitState {
    fn clone(&self) -> (r: Self)
        ensures
            r == *self,
    {
        RateLimitState { agent_id: self.agent_id.clone(), bucket: self.bucket.clone() }
    }
}

impl RateLimitState {
    pub closed spec fn spec_bucket(self) -> TokenBucket {
        self.bucket
    }

    pub closed spec fn spec_agent_id(self) -> String {
        self.agent_id
    }

    pub fn new(agent_id: &str, max_tokens: u64, replenish_rate: u64) -> (s: Self)
        ensures
            s.spec_agent_id()@ == agent_id@,
            s.spec_bucket().tokens == max_tokens,
            s.spec_bucket().max_tokens == max_tokens,
            s.spec_bucket().replenish_rate == replenish_rate,
    {
        RateLimitState { agent_id: owned(agent_id), bucket: TokenBucket::new(max_tokens, replenish_rate) }
    }

    /// Create from an existing bucket (used when loading stored state).
    pub fn from_bucket(agent_id: String, bucket: TokenBucket) -> (s: Self)
        ensures
            s.spec_agent_id() == agent_id,
            s.spec_bucket() == bucket,
    {
        RateLimitState { agent_id, bucket }
    }

    /// Check if a request is allowed, consuming tokens if so. A refused
    /// request is told to retry after the deficit divided by the
    /// replenish rate, in seconds.
    pub fn check(&mut self, cost: u64) -> (d: RateLimitDecision)
        requires
            old(self).spec_bucket().tokens < cost ==> old(self).spec_bucket().replenish_rate > 0,
        ensures
            check_step(*old(self), cost, d, *final(self)),
    {
        if self.bucket.tokens >= cost {
            self.bucket.consume(cost);
            RateLimitDecision { allowed: true, retry_after: None }
        } else {
            let deficit = cost - self.bucket.tokens;
            let rate = self.bucket.replenish_rate as u128;
            let num: u128 = deficit as u128 * 1_000_000_000u128 + rate / 2;
            let q: u128 = num / rate;
            proof {
                let d = deficit as int;
                let r = rate as int;
                assert(num as int <= d * 1_000_000_000 * r) by (nonlinear_arith)
                    requires num == d * 1_000_000_000 + r / 2, d >= 1, r >= 1;
                assert(q as int <= d * 1_000_000_000) by (nonlinear_arith)
                    requires q as int == num as int / r, num <= d * 1_000_000_000 * r, r >= 1, num >= 0;
                assert(q / 1_000_000_000 <= d) by (nonlinear_arith)
                    requires q <= d * 1_000_000_000, q >= 0;
                vstd::arithmetic::div_mod::lemma_fundamental_div_mod(q as int, 1_000_000_000);
                vstd::arithmetic::div_mod::lemma_mod_bound(q as int, 1_000_000_000);
            }
            let secs = (q / 1_000_000_000u128) as u64;
            let nanos = (q % 1_000_000_000u128) as u32;
            let w = TimeSpan { secs, nanos };
            assert(w.total_nanos() == q);
            RateLimitDecision { allowed: false, retry_after: Some(w) }
        }
    }

    /// Replenish tokens based on elapsed time.
    pub fn replenish(&mut self, elapsed: TimeSpan)
        requires
            elapsed.wf(),
            old(self).spec_bucket().tokens + earned(elapsed, old(self).spec_bucket().replenish_rate) <= u64::MAX,
        ensures
            replenish_step(*old(self), elapsed, *final(self)),
    {
        self.bucket.replenish(elapsed);
    }

    /// The agent the state belongs to.
    pub fn agent(&self) -> (r: &String)
        ensures
            *r == self.spec_agent_id(),
    {
        &self.agent_id
    }

    /// Access the underlying bucket.
    pub fn bucket(&self) -> (b: &TokenBucket)
        ensures
            *b == self.spec_bucket(),
    {
        &self.bucket
    }

    /// Access the underlying bucket mutably.
    pub fn bucket_mut(&mut self) -> (b: &mut TokenBucket)
        ensures
            *b == old(self).spec_bucket(),
            final(self).spec_bucket() == *final(b),
            final(self).spec_agent_id() == old(self).spec_agent_id(),
    {
        &mut self.bucket
    }
}

/// How many of the decisions allowed their request.
pub open spec fn allowed_count(ds: Seq<RateLimitDecision>) -> nat
    decreases ds.len(),
{
    if ds.len() == 0 {
        0
    } else {
        allowed_count(ds.drop_last()) + if ds.last().allowed {
            1nat
        } else {
            0nat
        }
    }
}

/// Without replenishing, a bucket holding `n` tokens allows exactly the
/// first `n` unit requests and refuses the rest: after `k` checks it holds
/// `n - k` tokens, or none.
pub proof fn law_unit_checks_drain(states: Seq<RateLimitState>, ds: Seq<RateLimitDecision>)
    requires
        states.len() == ds.len() + 1,
        forall|i: int| 0 <= i < ds.len() ==> check_step(#[trigger] states[i], 1, ds[i], states[i + 1]),
    ensures
        states.last().spec_bucket().tokens == if states[0].spec_bucket().tokens >= ds.len() {
            states[0].spec_bucket().tokens - ds.len()
        } else {
            0
        },
        allowed_count(ds) == if states[0].spec_bucket().tokens >= ds.len() {
            ds.len() as int
        } else {
            states[0].spec_bucket().tokens as int
        },
        forall|i: int| 0 <= i < ds.len() ==> (#[trigger] ds[i]).allowed == (i < states[0].spec_bucket().tokens),
    decreases ds.len(),
{
    if ds.len() > 0 {
        let k = ds.len() - 1;
        assert(states.drop_last().len() == ds.drop_last().len() + 1);
        assert forall|i: int| 0 <= i < ds.drop_last().len() implies check_step(
            #[trigger] states.drop_last()[i],
            1,
            ds.drop_last()[i],
            states.drop_last()[i + 1],
        ) by {
            assert(check_step(states[i], 1, ds[i], states[i + 1]));
        }
        law_unit_checks_drain(states.drop_last(), ds.drop_last());
        assert(check_step(states[k], 1, ds[k], states[k + 1]));
        assert(states.drop_last().last() == states[k]);
        assert forall|i: int| 0 <= i < ds.len() implies (#[trigger] ds[i]).allowed == (i < states[0].spec_bucket().tokens) by {
            if i < k {
                assert(ds.drop_last()[i] == ds[i]);
            }
        }
    }
}

/// Replenishing never raises a bucket above its capacity.
pub proof fn law_replenish_capped(s: RateLimitState, elapsed: TimeSpan, t: RateLimitState)
    requires
        replenish_step(s, elapsed, t),
    ensures
        t.spec_bucket().tokens <= t.spec_bucket().max_tokens,
        t.spec_bucket().tokens >= s.spec_bucket().tokens || t.spec_bucket().tokens == t.spec_bucket().max_tokens,
{
}

} // verus!
