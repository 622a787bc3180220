//! Query parameters of the event, audit and task routes.

use vstd::prelude::*;

verus! {

/// The page size a listing uses: the requested one or 50, at most 100.
pub open spec fn page_limit(requested: Option<i64>) -> i64 {
    let l = match requested { Some(l) => l, None => 50 };
    if l < 100 { l } else { 100 }
}

#[derive(Debug, Clone)]
pub struct EventQueryParams {
    pub project: String,
    pub since: Option<String>,
    pub limit: Option<i64>,
}

impl EventQueryParams {
    /// The number of events a query returns at most.
    pub fn effective_limit(&self) -> (r: i64)
        ensures
            r == page_limit(self.limit),
    {
        let l = match self.limit { Some(l) => l, None => 50 };
        if l < 100 { l } else { 100 }
    }
}

#[derive(Debug, Clone)]
pub struct AuditQueryParams {
    pub agent_id: Option<String>,
    pub operation: Option<String>,
    pub task_id: Option<String>,
    pub since: Option<String>,
    pub limit: Option<i64>,
}

impl AuditQueryParams {
    /// The number of audit entries a query returns at most.
    pub fn effective_limit(&self) -> (r: i64)
        ensures
            r == page_limit(self.limit),
    {
        let l = match self.limit { Some(l) => l, None => 50 };
        if l < 100 { l } else { 100 }
    }
}

#[derive(Debug, Clone)]
pub struct ListTasksQuery {
    pub project: String,
    pub state: Option<String>,
}

} // verus!
