//! Errors of the coordination logic and the HTTP status each one maps to.

use vstd::prelude::*;
use crate::nudge::{push_signed, signed_decimal};
use crate::text::{decimal, push_decimal, push_str};

verus! {

/// The failures the library's own logic reports. Storage, serialization and
/// transport failures belong to the application around it.
#[derive(Debug)]
pub enum EnvoyError {
    ChannelNotFound(String),
    ChannelAlreadyExists(String),
    NotSubscribed { agent: String, channel: String },
    InvalidEntity(String),
    AgentNotFound(String),
    AgentOffline(String),
    AgentAlreadyExists(String),
    MessageNotFound(String),
    InvalidMessage(String),
    WsError(String),
    MessageTooLarge(usize),
    TooManyParts(usize),
    StaleAgent { agent_id: String, last_heartbeat: Option<String>, threshold_minutes: i64 },
    DuplicateDependency { dependent: String, blocker: String },
    DependencyNotFound(String),
    TaskNotFound(String),
    TaskAlreadyClaimed(String, String),
    InvalidTaskState { task_id: String, from: String, to: String },
    NotTaskClaimant { agent: String, task_id: String },
    ProjectConfigNotFound(String),
    SubscriptionNotFound(String, String),
}

/// HTTP status and machine-readable code of an error response.
pub open spec fn response_code(e: EnvoyError) -> (u16, Seq<char>) {
    match e {
        EnvoyError::AgentNotFound(_) => (404, "AGENT_NOT_FOUND"@),
        EnvoyError::AgentOffline(_) => (409, "AGENT_OFFLINE"@),
        EnvoyError::AgentAlreadyExists(_) => (409, "AGENT_ALREADY_EXISTS"@),
        EnvoyError::MessageNotFound(_) => (404, "MESSAGE_NOT_FOUND"@),
        EnvoyError::ChannelNotFound(_) => (404, "CHANNEL_NOT_FOUND"@),
        EnvoyError::InvalidMessage(_) => (400, "INVALID_MESSAGE"@),
        EnvoyError::MessageTooLarge(_) => (400, "MESSAGE_TOO_LARGE"@),
        EnvoyError::TooManyParts(_) => (400, "TOO_MANY_PARTS"@),
        EnvoyError::StaleAgent { .. } => (200, "STALE_AGENT"@),
        EnvoyError::DuplicateDependency { .. } => (409, "DUPLICATE_DEPENDENCY"@),
        EnvoyError::DependencyNotFound(_) => (404, "DEPENDENCY_NOT_FOUND"@),
        EnvoyError::TaskNotFound(_) => (404, "TASK_NOT_FOUND"@),
        EnvoyError::TaskAlreadyClaimed(_, _) => (409, "TASK_ALREADY_CLAIMED"@),
        EnvoyError::InvalidTaskState { .. } => (409, "INVALID_TASK_STATE"@),
        EnvoyError::NotTaskClaimant { .. } => (403, "NOT_TASK_CLAIMANT"@),
        EnvoyError::ProjectConfigNotFound(_) => (404, "PROJECT_CONFIG_NOT_FOUND"@),
        EnvoyError::SubscriptionNotFound(_, _) => (404, "SUBSCRIPTION_NOT_FOUND"@),
        _ => (500, "INTERNAL_ERROR"@),
    }
}

impl EnvoyError {
    /// The HTTP status and error code an error is answered with.
    pub fn response_code(&self) -> (r: (u16, &'static str))
        ensures
            r.0 == response_code(*self).0,
            r.1@ == response_code(*self).1,
    {
        proof {
            reveal_strlit("AGENT_NOT_FOUND");
            reveal_strlit("AGENT_OFFLINE");
            reveal_strlit("AGENT_ALREADY_EXISTS");
            reveal_strlit("MESSAGE_NOT_FOUND");
            reveal_strlit("CHANNEL_NOT_FOUND");
            reveal_strlit("INVALID_MESSAGE");
            reveal_strlit("MESSAGE_TOO_LARGE");
            reveal_strlit("TOO_MANY_PARTS");
            reveal_strlit("STALE_AGENT");
            reveal_strlit("DUPLICATE_DEPENDENCY");
            reveal_strlit("DEPENDENCY_NOT_FOUND");
            reveal_strlit("TASK_NOT_FOUND");
            reveal_strlit("TASK_ALREADY_CLAIMED");
            reveal_strlit("INVALID_TASK_STATE");
            reveal_strlit("NOT_TASK_CLAIMANT");
            reveal_strlit("PROJECT_CONFIG_NOT_FOUND");
            reveal_strlit("SUBSCRIPTION_NOT_FOUND");
            reveal_strlit("INTERNAL_ERROR");
        }
        match self {
            EnvoyError::AgentNotFound(_) => (404, "AGENT_NOT_FOUND"),
            EnvoyError::AgentOffline(_) => (409, "AGENT_OFFLINE"),
            EnvoyError::AgentAlreadyExists(_) => (409, "AGENT_ALREADY_EXISTS"),
            EnvoyError::MessageNotFound(_) => (404, "MESSAGE_NOT_FOUND"),
            EnvoyError::ChannelNotFound(_) => (404, "CHANNEL_NOT_FOUND"),
            EnvoyError::InvalidMessage(_) => (400, "INVALID_MESSAGE"),
            EnvoyError::MessageTooLarge(_) => (400, "MESSAGE_TOO_LARGE"),
            EnvoyError::TooManyParts(_) => (400, "TOO_MANY_PARTS"),
            EnvoyError::StaleAgent { .. } => (200, "STALE_AGENT"),
            EnvoyError::DuplicateDependency { .. } => (409, "DUPLICATE_DEPENDENCY"),
            EnvoyError::DependencyNotFound(_) => (404, "DEPENDENCY_NOT_FOUND"),
            EnvoyError::TaskNotFound(_) => (404, "TASK_NOT_FOUND"),
            EnvoyError::TaskAlreadyClaimed(_, _) => (409, "TASK_ALREADY_CLAIMED"),
            EnvoyError::InvalidTaskState { .. } => (409, "INVALID_TASK_STATE"),
            EnvoyError::NotTaskClaimant { .. } => (403, "NOT_TASK_CLAIMANT"),
            EnvoyError::ProjectConfigNotFound(_) => (404, "PROJECT_CONFIG_NOT_FOUND"),
            EnvoyError::SubscriptionNotFound(_, _) => (404, "SUBSCRIPTION_NOT_FOUND"),
            _ => (500, "INTERNAL_ERROR"),
        }
    }
}

/// The text `{:?}` writes for an optional string (`None`, or `Some("…")`
/// with the string quoted and escaped).
pub uninterp spec fn option_debug_text(o: Option<Seq<char>>) -> Seq<char>;

/// The view of an optional string.
pub open spec fn opt_string_view(o: Option<String>) -> Option<Seq<char>> {
    match o {
        Some(s) => Some(s@),
        None => None,
    }
}

/// `format!("{:?}", o)` for an optional string.
#[verifier::external_body]
fn option_debug(o: &Option<String>) -> (r: String)
    ensures
        r@ == option_debug_text(opt_string_view(*o)),
{
    format!("{:?}", o)
}

/// The human-readable message of an error.
pub open spec fn error_message(e: EnvoyError) -> Seq<char> {
    match e {
        EnvoyError::ChannelNotFound(n) => "channel not found: "@ + n@,
        EnvoyError::ChannelAlreadyExists(n) => "channel already exists: "@ + n@,
        EnvoyError::NotSubscribed { agent: _, channel } => "agent not subscribed to channel "@ + channel@,
        EnvoyError::InvalidEntity(m) => "invalid entity: "@ + m@,
        EnvoyError::AgentNotFound(a) => "agent not found: "@ + a@,
        EnvoyError::AgentOffline(a) => "agent offline: "@ + a@,
        EnvoyError::AgentAlreadyExists(a) => "agent already exists: "@ + a@,
        EnvoyError::MessageNotFound(m) => "message not found: "@ + m@,
        EnvoyError::InvalidMessage(m) => "invalid message: "@ + m@,
        EnvoyError::WsError(m) => "websocket error: "@ + m@,
        EnvoyError::MessageTooLarge(n) => "message too large: "@ + decimal(n as nat) + " bytes exceeds 1MB limit"@,
        EnvoyError::TooManyParts(n) => "too many parts: "@ + decimal(n as nat) + " exceeds 20 limit"@,
        EnvoyError::StaleAgent { agent_id, last_heartbeat, threshold_minutes } => "agent status stale: "@ + agent_id@
            + " (last heartbeat: "@ + option_debug_text(opt_string_view(last_heartbeat)) + ", threshold: "@
            + signed_decimal(threshold_minutes as int) + "m)"@,
        EnvoyError::DuplicateDependency { dependent, blocker } => "dependency already exists: "@ + dependent@
            + " is already waiting on "@ + blocker@,
        EnvoyError::DependencyNotFound(d) => "dependency not found: "@ + d@,
        EnvoyError::TaskNotFound(t) => "task not found: "@ + t@,
        EnvoyError::TaskAlreadyClaimed(t, a) => "task already claimed: "@ + t@ + " by "@ + a@,
        EnvoyError::InvalidTaskState { task_id, from, to } => "invalid task state transition: "@ + task_id@ + " from "@
            + from@ + " to "@ + to@,
        EnvoyError::NotTaskClaimant { agent, task_id } => "not task claimant: agent "@ + agent@ + " does not own task "@
            + task_id@,
        EnvoyError::ProjectConfigNotFound(p) => "project config not found: "@ + p@,
        EnvoyError::SubscriptionNotFound(a, p) => "subscription not found: "@ + a@ + " for project "@ + p@,
    }
}

impl EnvoyError {
    /// The error's message, as error responses carry it.
    pub fn message(&self) -> (r: String)
        ensures
            r@ == error_message(*self),
    {
        let mut s = String::new();
        match self {
            EnvoyError::ChannelNotFound(n) => {
                push_str(&mut s, "channel not found: ");
                push_str(&mut s, n.as_str());
            },
            EnvoyError::ChannelAlreadyExists(n) => {
                push_str(&mut s, "channel already exists: ");
                push_str(&mut s, n.as_str());
            },
            EnvoyError::NotSubscribed { agent: _, channel } => {
                push_str(&mut s, "agent not subscribed to channel ");
                push_str(&mut s, channel.as_str());
            },
            EnvoyError::InvalidEntity(m) => {
                push_str(&mut s, "invalid entity: ");
                push_str(&mut s, m.as_str());
            },
            EnvoyError::AgentNotFound(a) => {
                push_str(&mut s, "agent not found: ");
                push_str(&mut s, a.as_str());
            },
            EnvoyError::AgentOffline(a) => {
                push_str(&mut s, "agent offline: ");
                push_str(&mut s, a.as_str());
            },
            EnvoyError::AgentAlreadyExists(a) => {
                push_str(&mut s, "agent already exists: ");
                push_str(&mut s, a.as_str());
            },
            EnvoyError::MessageNotFound(m) => {
                push_str(&mut s, "message not found: ");
                push_str(&mut s, m.as_str());
            },
            EnvoyError::InvalidMessage(m) => {
                push_str(&mut s, "invalid message: ");
                push_str(&mut s, m.as_str());
            },
            EnvoyError::WsError(m) => {
                push_str(&mut s, "websocket error: ");
                push_str(&mut s, m.as_str());
            },
            EnvoyError::MessageTooLarge(n) => {
                push_str(&mut s, "message too large: ");
                push_decimal(&mut s, *n as u64);
                push_str(&mut s, " bytes exceeds 1MB limit");
            },
            EnvoyError::TooManyParts(n) => {
                push_str(&mut s, "too many parts: ");
                push_decimal(&mut s, *n as u64);
                push_str(&mut s, " exceeds 20 limit");
            },
            EnvoyError::StaleAgent { agent_id, last_heartbeat, threshold_minutes } => {
                push_str(&mut s, "agent status stale: ");
                push_str(&mut s, agent_id.as_str());
                push_str(&mut s, " (last heartbeat: ");
                let d = option_debug(last_heartbeat);
                push_str(&mut s, d.as_str());
                push_str(&mut s, ", threshold: ");
                push_signed(&mut s, *threshold_minutes);
                push_str(&mut s, "m)");
            },
            EnvoyError::DuplicateDependency { dependent, blocker } => {
                push_str(&mut s, "dependency already exists: ");
                push_str(&mut s, dependent.as_str());
                push_str(&mut s, " is already waiting on ");
                push_str(&mut s, blocker.as_str());
            },
            EnvoyError::DependencyNotFound(d) => {
                push_str(&mut s, "dependency not found: ");
                push_str(&mut s, d.as_str());
            },
            EnvoyError::TaskNotFound(t) => {
                push_str(&mut s, "task not found: ");
                push_str(&mut s, t.as_str());
            },
            EnvoyError::TaskAlreadyClaimed(t, a) => {
                push_str(&mut s, "task already claimed: ");
                push_str(&mut s, t.as_str());
                push_str(&mut s, " by ");
                push_str(&mut s, a.as_str());
            },
            EnvoyError::InvalidTaskState { task_id, from, to } => {
                push_str(&mut s, "invalid task state transition: ");
                push_str(&mut s, task_id.as_str());
                push_str(&mut s, " from ");
                push_str(&mut s, from.as_str());
                push_str(&mut s, " to ");
                push_str(&mut s, to.as_str());
            },
            EnvoyError::NotTaskClaimant { agent, task_id } => {
                push_str(&mut s, "not task claimant: agent ");
                push_str(&mut s, agent.as_str());
                push_str(&mut s, " does not own task ");
                push_str(&mut s, task_id.as_str());
            },
            EnvoyError::ProjectConfigNotFound(p) => {
                push_str(&mut s, "project config not found: ");
                push_str(&mut s, p.as_str());
            },
            EnvoyError::SubscriptionNotFound(a, p) => {
                push_str(&mut s, "subscription not found: ");
                push_str(&mut s, a.as_str());
                push_str(&mut s, " for project ");
                push_str(&mut s, p.as_str());
            },
        }
        s
    }
}

} // verus!
