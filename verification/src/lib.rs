//! Verified core of the envoy coordination server: rate limiting, circuit
//! breaking, the agent registry, message validation and the pure helpers the
//! HTTP layer and the hook binary rely on.

pub mod assoc;
pub mod circuit;
pub mod text;
pub mod time;
pub mod status;
pub mod error;
pub mod agent;
pub mod rate_limit;
pub mod metrics;
pub mod mcp;
pub mod message;
pub mod atheneum_bridge;
pub mod http;
pub mod event;
pub mod dependency;
pub mod monitor;
pub mod audit;
pub mod dashboard;
pub mod hook;
pub mod nudge;
pub mod backfill;
pub mod cli;
pub mod order;
pub mod engine;
