//! Request and response bodies of the knowledge-graph routes.

use vstd::prelude::*;
use crate::text::owned;

verus! {

/// Default number of recent handoffs returned.
pub fn default_recent_limit() -> (r: i64)
    ensures
        r == 10,
{
    10
}

/// Default number of project-context items returned.
pub fn default_context_limit() -> (r: i64)
    ensures
        r == 8,
{
    8
}

/// Default number of session events inspected.
pub fn default_event_limit_i64() -> (r: i64)
    ensures
        r == 20,
{
    20
}

/// Default number of sessions listed.
pub fn default_sessions_last() -> (r: i64)
    ensures
        r == 5,
{
    5
}

/// Default outcome of a sub-agent handover.
pub fn default_outcome() -> (r: String)
    ensures
        r@ == "complete"@,
{
    owned("complete")
}

/// Default depth of a graph navigation.
pub fn default_navigate_depth() -> (r: u32)
    ensures
        r == 2,
{
    2
}

#[derive(Debug, Clone)]
pub struct StoreDiscoveryResponse {
    pub discovery_id: i64,
    pub agent: String,
    pub target: String,
    pub discovery_type: String,
}

#[derive(Debug, Clone)]
pub struct DiscoveriesQuery {
    pub target: String,
    pub project: Option<String>,
}

#[derive(Debug, Clone)]
pub struct StoreHandoffResponse {
    pub handoff_id: i64,
    pub from_agent: String,
    pub to_agent: String,
    pub created_at: String,
}

#[derive(Debug, Clone)]
pub struct PendingHandoffQuery {
    pub agent: String,
    pub project: Option<String>,
}

#[derive(Debug, Clone)]
pub struct RecentHandoffsQuery {
    pub project: Option<String>,
    pub agent: Option<String>,
    pub limit: i64,
}

#[derive(Debug, Clone)]
pub struct ClaimHandoffResponse {
    pub claimed: bool,
    pub handoff_id: i64,
}

#[derive(Debug, Clone)]
pub struct KnowledgeQuery {
    pub target: String,
    pub project: Option<String>,
}

#[derive(Debug, Clone)]
pub struct ProjectContextQuery {
    pub project: String,
    pub limit: i64,
}

#[derive(Debug, Clone)]
pub struct ProjectContextItem {
    pub discovery_type: String,
    pub target: String,
    pub why: String,
    pub agent: String,
}

impl ProjectContextItem {
    /// A recent discovery as the project context lists it: its type (else
    /// `Discovery`), its target (else the entity's name), why it matters
    /// (from its data, else from its metadata, else empty), and the agent
    /// that made it (else `unknown`).
    pub fn from_fields(
        name: &str,
        discovery_type: Option<&str>,
        target: Option<&str>,
        why: Option<&str>,
        metadata_why: Option<&str>,
        agent: Option<&str>,
    ) -> (r: Self)
        ensures
            r.discovery_type@ == match discovery_type {
                Some(t) => t@,
                None => "Discovery"@,
            },
            r.target@ == match target {
                Some(t) => t@,
                None => name@,
            },
            r.why@ == match why {
                Some(w) => w@,
                None => match metadata_why {
                    Some(w) => w@,
                    None => Seq::<char>::empty(),
                },
            },
            r.agent@ == match agent {
                Some(a) => a@,
                None => "unknown"@,
            },
    {
        proof {
            reveal_strlit("");
        }
        ProjectContextItem {
            discovery_type: owned(match discovery_type {
                Some(t) => t,
                None => "Discovery",
            }),
            target: owned(match target {
                Some(t) => t,
                None => name,
            }),
            why: owned(match why {
                Some(w) => w,
                None => match metadata_why {
                    Some(w) => w,
                    None => "",
                },
            }),
            agent: owned(match agent {
                Some(a) => a,
                None => "unknown",
            }),
        }
    }
}

#[derive(Debug, Clone)]
pub struct ProjectContextResponse {
    pub project: String,
    pub items: Vec<ProjectContextItem>,
}

#[derive(Debug, Clone)]
pub struct SearchQuery {
    pub q: String,
    pub k: usize,
    pub project: Option<String>,
}

#[derive(Debug, Clone)]
pub struct ImportMagellanSymbolRequest {
    pub magellan_db_path: String,
    pub symbol_name: String,
    pub agent_name: String,
    pub project_id: Option<String>,
}

#[derive(Debug, Clone)]
pub struct ImportMagellanBulkRequest {
    pub magellan_db_path: String,
    pub agent_name: String,
    pub project_id: Option<String>,
    pub limit: Option<usize>,
}

#[derive(Debug, Clone)]
pub struct ImportMagellanSymbolResponse {
    pub found: bool,
    pub discovery_id: Option<i64>,
}

#[derive(Debug, Clone)]
pub struct ImportMagellanBulkResponse {
    pub imported_count: i64,
}

#[derive(Debug, Clone)]
pub struct CreateTaskRequest {
    pub title: String,
    pub description: Option<String>,
    pub project_id: Option<String>,
}

#[derive(Debug, Clone)]
pub struct TaskCreatedResponse {
    pub task_id: i64,
    pub status: String,
}

#[derive(Debug, Clone)]
pub struct ListTasksQuery {
    pub project: Option<String>,
    pub status: Option<String>,
}

#[derive(Debug, Clone)]
pub struct UpdateTaskStatusRequest {
    pub status: String,
}

#[derive(Debug, Clone)]
pub struct CreateRequirementRequest {
    pub statement: String,
    pub verification_method: Option<String>,
}

#[derive(Debug, Clone)]
pub struct CreateBlockerRequest {
    pub description: String,
    pub blocker_type: String,
}

#[derive(Debug, Clone)]
pub struct IngestJournalRequest {
    pub path: String,
    pub content: String,
    pub project_id: Option<String>,
}

#[derive(Debug, Clone)]
pub struct ActionTraceResponse {
    pub agent_id: i64,
    pub reasoning_log_id: i64,
    pub tool_call_ids: Vec<i64>,
    pub modified_edge_ids: Vec<i64>,
}

#[derive(Debug, Clone)]
pub struct GetActionsQuery {
    pub agent: String,
    pub project: Option<String>,
}

#[derive(Debug, Clone)]
pub struct CreateClassRequest {
    pub name: String,
    pub description: Option<String>,
}

#[derive(Debug, Clone)]
pub struct ClassCreatedResponse {
    pub class_id: i64,
}

#[derive(Debug, Clone)]
pub struct CreatePropertyRequest {
    pub name: String,
    pub domain_class: String,
    pub range_class: String,
    pub description: Option<String>,
}

#[derive(Debug, Clone)]
pub struct PropertyCreatedResponse {
    pub property_id: i64,
}

#[derive(Debug, Clone)]
pub struct ValidateEdgeQuery {
    pub from: String,
    pub to: String,
    pub edge: String,
}

#[derive(Debug, Clone)]
pub struct ValidateEdgeResponse {
    pub allowed: bool,
}

#[derive(Debug, Clone)]
pub struct SeedResponse {
    pub seeded: i64,
}

#[derive(Debug, Clone)]
pub struct RecordSessionRequest {
    pub session_id: String,
    pub agent: String,
    pub project: String,
    pub tool: String,
    pub trigger: String,
    pub model: Option<String>,
    pub git_branch: Option<String>,
    pub git_head: Option<String>,
    pub parent_session_id: Option<String>,
}

#[derive(Debug, Clone)]
pub struct RecordSessionResponse {
    pub session_id: String,
    pub recorded: bool,
}

#[derive(Debug, Clone)]
pub struct QuerySessionsQuery {
    pub project: Option<String>,
    pub last: i64,
    pub parent_id: Option<String>,
}

#[derive(Debug, Clone)]
pub struct SessionInspectQuery {
    pub limit: i64,
}

#[derive(Debug, Clone)]
pub struct SubagentHandoverRequest {
    pub summary: String,
    pub files_changed: Vec<String>,
    pub outcome: String,
}

#[derive(Debug, Clone)]
pub struct RecordToolCallRequest {
    pub session_id: String,
    pub tool_name: String,
    pub tool_version: Option<String>,
    pub input_hash: Option<String>,
    pub input_summary: Option<String>,
    pub output_hash: Option<String>,
    pub output_summary: Option<String>,
    pub exit_status: String,
    pub latency_ms: u64,
    pub input_tokens_est: Option<u64>,
    pub tool_category: String,
}

#[derive(Debug, Clone)]
pub struct RecordFileWriteRequest {
    pub session_id: String,
    pub file_path: String,
    pub file_id: Option<String>,
    pub before_hash: Option<String>,
    pub after_hash: Option<String>,
    pub lines_added: u32,
    pub lines_deleted: u32,
    pub lines_changed: u32,
    pub write_type: String,
}

#[derive(Debug, Clone)]
pub struct RecordCommitRequest {
    pub session_id: String,
    pub commit_sha: String,
    pub parent_sha: Option<String>,
    pub message: String,
    pub author: String,
    pub files_changed: u32,
    pub lines_inserted: u32,
    pub lines_deleted: u32,
    pub commit_type: String,
    pub feature_tag: Option<String>,
}

#[derive(Debug, Clone)]
pub struct RecordTestRunRequest {
    pub session_id: String,
    pub test_name: String,
    pub test_suite: Option<String>,
    pub test_command: Option<String>,
    pub result: String,
    pub duration_ms: u64,
    pub logs_summary: Option<String>,
    pub commit_sha: Option<String>,
}

#[derive(Debug, Clone)]
pub struct RecordFixChainRequest {
    pub session_id: String,
    pub bug_commit_sha: String,
    pub fix_commit_sha: String,
    pub fix_type: String,
    pub severity: String,
    pub cycles_to_fix: u32,
    pub time_to_fix_ms: u64,
}

#[derive(Debug, Clone)]
pub struct RecordBenchRunRequest {
    pub session_id: String,
    pub bench_name: String,
    pub mean_ns: Option<i64>,
    pub median_ns: Option<i64>,
    pub p95_ns: Option<i64>,
    pub is_regression: bool,
}

#[derive(Debug, Clone)]
pub struct QueryEventsQuery {
    pub session_id: Option<String>,
    pub event_type: Option<String>,
    pub limit: usize,
}

#[derive(Debug, Clone)]
pub struct RecentToolCallsQuery {
    pub session_id: Option<String>,
    pub limit: usize,
}

#[derive(Debug, Clone)]
pub struct ToolUsageItem {
    pub tool_name: String,
    pub count: usize,
}

#[derive(Debug, Clone)]
pub struct GraphStatsResponse {
    pub total_entities: i64,
    pub total_edges: i64,
    pub entity_counts: Vec<(String, i64)>,
    pub edge_counts: Vec<(String, i64)>,
}

#[derive(Debug, Clone)]
pub struct NavigateQuery {
    pub q: String,
    pub k: usize,
    pub depth: u32,
    pub project: Option<String>,
}

#[derive(Debug, Clone)]
pub struct CrossSearchQuery {
    pub q: String,
    pub k: usize,
    pub language: Option<String>,
}

#[derive(Debug, Clone)]
pub struct CrossNavigateQuery {
    pub q: String,
    pub k: usize,
    pub depth: u32,
    pub language: Option<String>,
}

#[derive(Debug, Clone)]
pub struct NeighborsQuery {
    pub depth: Option<u32>,
}

} // verus!
