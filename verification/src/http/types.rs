//! Bodies of the agent, message and dependency routes.

use vstd::prelude::*;

verus! {

#[derive(Debug, Clone)]
pub struct RegisterRequest {
    pub name: String,
    pub parent_id: Option<String>,
    pub kind: String,
}

#[derive(Debug, Clone)]
pub struct PollQuery {
    pub to: String,
    pub since: Option<i64>,
    pub limit: i64,
    pub inclusion: Option<String>,
}

/// Default number of messages a poll returns.
pub fn default_limit() -> (r: i64)
    ensures
        r == 50,
{
    50
}

#[derive(Debug, Clone, Copy)]
pub struct HealthResponse {
    pub status: &'static str,
    pub uptime_seconds: i64,
    pub agents_online: usize,
}

#[derive(Debug, Clone, Copy)]
pub struct StatsResponse {
    pub messages_total: i64,
    pub agents_registered: usize,
}

#[derive(Debug, Clone)]
pub struct CreateDependencyRequest {
    pub dependent_agent: String,
    pub blocker_agent: String,
    pub reason: String,
}

#[derive(Debug, Clone)]
pub struct AckRequest {
    pub agent_id: String,
}

} // verus!
