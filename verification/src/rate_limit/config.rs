//! Rate limit configuration.

use vstd::prelude::*;

verus! {

/// Rate limit configuration.
///
/// Can be loaded from a config file or constructed programmatically.
#[derive(Debug, Clone, Copy)]
pub struct RateLimitConfig {
    /// Maximum tokens per agent (capacity).
    pub max_tokens: u64,
    /// Tokens replenished per second.
    pub replenish_rate: u64,
    /// Burst capacity (short-term allowance above max_tokens).
    pub burst_size: u64,
}

impl Default for RateLimitConfig {
    fn default() -> (c: Self)
        ensures
            c.max_tokens == 1000,
            c.replenish_rate == 100,
            c.burst_size == 5000,
    {
        RateLimitConfig { max_tokens: 1000, replenish_rate: 100, burst_size: 5000 }
    }
}

impl RateLimitConfig {
    pub fn new(max_tokens: u64, replenish_rate: u64, burst_size: u64) -> (c: Self)
        ensures
            c.max_tokens == max_tokens,
            c.replenish_rate == replenish_rate,
            c.burst_size == burst_size,
    {
        RateLimitConfig { max_tokens, replenish_rate, burst_size }
    }
}

} // verus!
