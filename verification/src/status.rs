//! Agent workflow status reported with heartbeats, and the nudges sent back.

use vstd::prelude::*;
use crate::text::owned;

verus! {

/// Agent workflow state, driven by the complete-agent-workflow checkpoints.
#[derive(Debug, Clone, Copy, PartialEq, Eq, Structural)]
pub enum AgentState {
    /// Actively executing a task (pre-work → implementation → verification)
    Working,
    /// Blocked on another agent or external dependency
    Blocked,
    /// Work done, waiting for review/CI/docs
    WaitingReview,
    /// No active task
    Idle,
}

impl AgentState {
    pub open spec fn name(self) -> Seq<char> {
        match self {
            AgentState::Working => "working"@,
            AgentState::Blocked => "blocked"@,
            AgentState::WaitingReview => "waiting_review"@,
            AgentState::Idle => "idle"@,
        }
    }

    pub fn as_str(&self) -> (s: &'static str)
        ensures
            s@ == self.name(),
    {
        proof {
            reveal_strlit("working");
            reveal_strlit("blocked");
            reveal_strlit("waiting_review");
            reveal_strlit("idle");
        }
        match self {
            AgentState::Working => "working",
            AgentState::Blocked => "blocked",
            AgentState::WaitingReview => "waiting_review",
            AgentState::Idle => "idle",
        }
    }
}

/// Copies an optional string.
pub fn clone_opt(s: &Option<String>) -> (r: Option<String>)
    ensures
        r == *s,
{
    match s {
        Some(v) => Some(v.clone()),
        None => None,
    }
}

/// A point-in-time snapshot of an agent's status.
#[derive(Debug)]
pub struct AgentStatusSnapshot {
    pub state: AgentState,
    pub task_id: Option<String>,
    pub blocked_reason: Option<String>,
    /// Agent this one is waiting on (if Blocked)
    pub waiting_on_agent: Option<String>,
    /// Workflow checkpoint the agent is currently at
    pub checkpoint: Option<String>,
    /// Human-readable description of current work
    pub working_on: String,
}

impl Clone for AgentStatusSnapshot {
    fn clone(&self) -> (r: Self)
        ensures
            r == *self,
    {
        AgentStatusSnapshot {
            state: self.state,
            task_id: clone_opt(&self.task_id),
            blocked_reason: clone_opt(&self.blocked_reason),
            waiting_on_agent: clone_opt(&self.waiting_on_agent),
            checkpoint: clone_opt(&self.checkpoint),
            working_on: self.working_on.clone(),
        }
    }
}

impl Default for AgentStatusSnapshot {
    fn default() -> (r: Self)
        ensures
            r.state == AgentState::Working,
            r.task_id is None,
            r.blocked_reason is None,
            r.waiting_on_agent is None,
            r.checkpoint is None,
            r.working_on@ == "heartbeat via WS"@,
    {
        AgentStatusSnapshot {
            state: AgentState::Working,
            task_id: None,
            blocked_reason: None,
            waiting_on_agent: None,
            checkpoint: None,
            working_on: owned("heartbeat via WS"),
        }
    }
}

#[derive(Debug, Clone)]
pub struct HeartbeatRequest {
    pub agent_id: String,
    pub status: AgentStatusSnapshot,
}

#[derive(Debug, Clone)]
pub struct HeartbeatResponse {
    pub accepted: bool,
    pub nudges: Vec<NudgeMessage>,
}

#[derive(Debug, Clone)]
pub struct NudgeMessage {
    pub reason: String,
    pub severity: NudgeSeverity,
}

#[derive(Debug, Clone, Copy, PartialEq, Eq, Structural)]
pub enum NudgeSeverity {
    Info,
    Warning,
    Blocking,
}

/// Configuration for the background nudge loop.
#[derive(Debug, Clone, Copy)]
pub struct NudgeConfig {
    /// Minutes before an agent without heartbeat is considered stale
    pub stale_threshold_minutes: i64,
    /// Minutes between nudge loop checks
    pub check_interval_seconds: u64,
}

impl Default for NudgeConfig {
    fn default() -> (r: Self)
        ensures
            r.stale_threshold_minutes == 5,
            r.check_interval_seconds == 30,
    {
        NudgeConfig { stale_threshold_minutes: 5, check_interval_seconds: 30 }
    }
}

} // verus!
