//! Project subscriptions, per-project polling configuration, and the
//! decisions of the CI and documentation monitors.
//!
//! The records live in the graph store; the application reads them, hands
//! them here as plain values, and performs the inserts and deletes that the
//! functions below decide.

use vstd::prelude::*;
use crate::agent::clone_strings;
use crate::assoc::StrMap;
use crate::error::EnvoyError;
use crate::event::EventSeverity;
use crate::text::{decimal, owned, push_decimal, push_str, str_eq};

verus! {

broadcast use vstd::string::group_string_axioms;

/// Storage kind of subscription records.
pub const KIND_PROJECT_SUB: &'static str = "EnvoyProjectSubscription";

/// Storage kind of project configuration records.
pub const KIND_PROJECT_CFG: &'static str = "EnvoyProjectConfig";

/// The name under which the subscription of `agent` to `project` is stored.
pub open spec fn subscription_name(agent: Seq<char>, project: Seq<char>) -> Seq<char> {
    "sub-"@ + agent + "-"@ + project
}

/// The name under which the configuration of `project` is stored.
pub open spec fn config_name(project: Seq<char>) -> Seq<char> {
    "cfg-"@ + project
}

/// A stored subscription of an agent to a project.
#[derive(Debug)]
pub struct SubscriptionRecord {
    pub name: String,
    pub agent_id: String,
    pub project: String,
}

/// The character content of each string.
pub open spec fn views(s: Seq<String>) -> Seq<Seq<char>> {
    s.map_values(|x: String| x@)
}

/// The projects of the records held by `agent`, in stored order
/// (`by_agent`), or the agents of the records for project `key`.
pub open spec fn picked(rs: Seq<SubscriptionRecord>, key: Seq<char>, by_agent: bool) -> Seq<Seq<char>>
    decreases rs.len(),
{
    if rs.len() == 0 {
        Seq::empty()
    } else {
        let prev = picked(rs.drop_last(), key, by_agent);
        let r = rs.last();
        if by_agent && r.agent_id@ == key {
            prev.push(r.project@)
        } else if !by_agent && r.project@ == key {
            prev.push(r.agent_id@)
        } else {
            prev
        }
    }
}

/// A stored subscription is read back: once the record `subscribe` hands
/// out is stored, the agent's listing shows the project and the project's
/// subscribers include the agent.
pub proof fn law_subscription_listed(rs: Seq<SubscriptionRecord>, rec: SubscriptionRecord, agent: Seq<char>, project: Seq<char>)
    requires
        rec.agent_id@ == agent,
        rec.project@ == project,
    ensures
        picked(rs.push(rec), agent, true).contains(project),
        picked(rs.push(rec), project, false).contains(agent),
{
    let rs2 = rs.push(rec);
    assert(rs2.drop_last() =~= rs);
    assert(rs2.last() == rec);
    let a = picked(rs, agent, true);
    let b = picked(rs, project, false);
    assert(a.push(project)[a.len() as int] == project);
    assert(b.push(agent)[b.len() as int] == agent);
}

/// Stateless store for project-scoped agent subscriptions.
pub struct SubscriptionStore;

impl Default for SubscriptionStore {
    fn default() -> Self {
        SubscriptionStore
    }
}

impl SubscriptionStore {
    pub fn new() -> Self {
        SubscriptionStore
    }

    /// `sub-{agent_id}-{project}`.
    pub fn record_name(&self, agent_id: &str, project: &str) -> (r: String)
        ensures
            r@ == subscription_name(agent_id@, project@),
    {
        let mut s = owned("sub-");
        push_str(&mut s, agent_id);
        push_str(&mut s, "-");
        push_str(&mut s, project);
        proof {
            reveal_strlit("sub-");
            reveal_strlit("-");
        }
        s
    }

    /// Index of the first record stored under `name`.
    fn find_named(&self, records: &Vec<SubscriptionRecord>, name: &str) -> (r: Option<usize>)
        ensures
            match r {
                Some(i) => i < records@.len() && records@[i as int].name@ == name@ && forall|j: int|
                    0 <= j < i ==> #[trigger] records@[j].name@ != name@,
                None => forall|j: int| 0 <= j < records@.len() ==> #[trigger] records@[j].name@ != name@,
            },
    {
        let mut i: usize = 0;
        while i < records.len()
            invariant
                i <= records@.len(),
                forall|j: int| 0 <= j < i ==> #[trigger] records@[j].name@ != name@,
            decreases records@.len() - i,
        {
            if str_eq(records[i].name.as_str(), name) {
                return Some(i);
            }
            i += 1;
        }
        None
    }

    /// Subscribing twice is a no-op: `None` when a record of the
    /// subscription's name is stored, else the record to store.
    pub fn subscribe(&self, existing: &Vec<SubscriptionRecord>, agent_id: &str, project: &str) -> (r: Option<
        SubscriptionRecord,
    >)
        ensures
            r is None <==> exists|j: int|
                0 <= j < existing@.len() && #[trigger] existing@[j].name@ == subscription_name(agent_id@, project@),
            r matches Some(rec) ==> rec.name@ == subscription_name(agent_id@, project@) && rec.agent_id@ == agent_id@
                && rec.project@ == project@,
    {
        let name = self.record_name(agent_id, project);
        match self.find_named(existing, name.as_str()) {
            Some(i) => {
                assert(existing@[i as int].name@ == subscription_name(agent_id@, project@));
                None
            },
            None => Some(SubscriptionRecord { name, agent_id: owned(agent_id), project: owned(project) }),
        }
    }

    /// The index of the record to delete, or `SubscriptionNotFound` when no
    /// record of the subscription's name is stored.
    pub fn unsubscribe(&self, existing: &Vec<SubscriptionRecord>, agent_id: &str, project: &str) -> (r: Result<
        usize,
        EnvoyError,
    >)
        ensures
            match r {
                Ok(i) => i < existing@.len() && existing@[i as int].name@ == subscription_name(agent_id@, project@)
                    && forall|j: int| 0 <= j < i ==> #[trigger] existing@[j].name@ != subscription_name(agent_id@, project@),
                Err(e) => (e matches EnvoyError::SubscriptionNotFound(a, p) && a@ == agent_id@ && p@ == project@)
                    && forall|j: int| 0 <= j < existing@.len() ==> #[trigger] existing@[j].name@ != subscription_name(
                    agent_id@,
                    project@,
                ),
            },
    {
        let name = self.record_name(agent_id, project);
        match self.find_named(existing, name.as_str()) {
            Some(i) => Ok(i),
            None => Err(EnvoyError::SubscriptionNotFound(owned(agent_id), owned(project))),
        }
    }

    fn pick(&self, records: &Vec<SubscriptionRecord>, key: &str, by_agent: bool) -> (r: Vec<String>)
        ensures
            views(r@) == picked(records@, key@, by_agent),
    {
        let mut out: Vec<String> = Vec::new();
        let mut i: usize = 0;
        while i < records.len()
            invariant
                i <= records@.len(),
                views(out@) == picked(records@.take(i as int), key@, by_agent),
            decreases records@.len() - i,
        {
            let rec = &records[i];
            proof {
                assert(records@.take(i as int + 1).drop_last() =~= records@.take(i as int));
                assert(records@.take(i as int + 1).last() == records@[i as int]);
            }
            if by_agent && str_eq(rec.agent_id.as_str(), key) {
                let p = rec.project.clone();
                proof {
                    assert(views(out@.push(p)) =~= views(out@).push(p@));
                }
                out.push(p);
            } else if !by_agent && str_eq(rec.project.as_str(), key) {
                let a = rec.agent_id.clone();
                proof {
                    assert(views(out@.push(a)) =~= views(out@).push(a@));
                }
                out.push(a);
            }
            i += 1;
        }
        assert(records@.take(records@.len() as int) =~= records@);
        out
    }

    /// The projects `agent_id` is subscribed to, in stored order.
    pub fn list(&self, records: &Vec<SubscriptionRecord>, agent_id: &str) -> (r: Vec<String>)
        ensures
            views(r@) == picked(records@, agent_id@, true),
    {
        self.pick(records, agent_id, true)
    }

    /// The agents subscribed to `project`, in stored order.
    pub fn subscribers(&self, records: &Vec<SubscriptionRecord>, project: &str) -> (r: Vec<String>)
        ensures
            views(r@) == picked(records@, project@, false),
    {
        self.pick(records, project, false)
    }
}

/// Polling configuration of one project.
#[derive(Debug)]
pub struct ProjectConfig {
    pub project: String,
    pub ci_poll_seconds: u64,
    pub doc_poll_seconds: u64,
    pub ci_repo_owner: String,
    pub doc_files: Vec<String>,
}

impl Clone for ProjectConfig {
    fn clone(&self) -> (r: Self)
        ensures
            r.project == self.project,
            r.ci_poll_seconds == self.ci_poll_seconds,
            r.doc_poll_seconds == self.doc_poll_seconds,
            r.ci_repo_owner == self.ci_repo_owner,
            r.doc_files@ == self.doc_files@,
    {
        ProjectConfig {
            project: self.project.clone(),
            ci_poll_seconds: self.ci_poll_seconds,
            doc_poll_seconds: self.doc_poll_seconds,
            ci_repo_owner: self.ci_repo_owner.clone(),
            doc_files: clone_strings(&self.doc_files),
        }
    }
}

impl Default for ProjectConfig {
    fn default() -> (c: Self)
        ensures
            c.project@ == Seq::<char>::empty(),
            c.ci_poll_seconds == 60,
            c.doc_poll_seconds == 300,
            c.ci_repo_owner@ == Seq::<char>::empty(),
            c.doc_files@.len() == 0,
    {
        ProjectConfig {
            project: String::new(),
            ci_poll_seconds: 60,
            doc_poll_seconds: 300,
            ci_repo_owner: String::new(),
            doc_files: Vec::new(),
        }
    }
}

/// A stored configuration as read back: a missing poll interval is `None`.
#[derive(Debug)]
pub struct ProjectConfigRecord {
    pub project: String,
    pub ci_poll_seconds: Option<u64>,
    pub doc_poll_seconds: Option<u64>,
    pub ci_repo_owner: String,
    pub doc_files: Vec<String>,
}

/// Stateless store for per-project polling configuration.
pub struct ProjectConfigStore;

impl Default for ProjectConfigStore {
    fn default() -> Self {
        ProjectConfigStore
    }
}

impl ProjectConfigStore {
    pub fn new() -> Self {
        ProjectConfigStore
    }

    /// `cfg-{project}`.
    pub fn record_name(&self, project: &str) -> (r: String)
        ensures
            r@ == config_name(project@),
    {
        let mut s = owned("cfg-");
        push_str(&mut s, project);
        proof {
            reveal_strlit("cfg-");
        }
        s
    }

    /// The configuration of `project` from the record found under its name:
    /// `ProjectConfigNotFound` when there is none, and intervals of 60 and
    /// 300 seconds where the record holds none.
    pub fn get(&self, found: Option<ProjectConfigRecord>, project: &str) -> (r: Result<ProjectConfig, EnvoyError>)
        ensures
            found is None <==> r is Err,
            r matches Err(e) ==> e matches EnvoyError::ProjectConfigNotFound(p) && p@ == project@,
            found matches Some(rec) ==> r matches Ok(c) && c.project == rec.project && c.ci_repo_owner
                == rec.ci_repo_owner && c.doc_files == rec.doc_files && c.ci_poll_seconds == (match rec.ci_poll_seconds {
                Some(v) => v,
                None => 60,
            }) && c.doc_poll_seconds == (match rec.doc_poll_seconds {
                Some(v) => v,
                None => 300,
            }),
    {
        match found {
            None => Err(EnvoyError::ProjectConfigNotFound(owned(project))),
            Some(rec) => Ok(
                ProjectConfig {
                    project: rec.project,
                    ci_poll_seconds: match rec.ci_poll_seconds {
                        Some(v) => v,
                        None => 60,
                    },
                    doc_poll_seconds: match rec.doc_poll_seconds {
                        Some(v) => v,
                        None => 300,
                    },
                    ci_repo_owner: rec.ci_repo_owner,
                    doc_files: rec.doc_files,
                },
            ),
        }
    }
}

/// The severity of a CI conclusion: a failure blocks, anything else informs.
pub open spec fn ci_severity(conclusion: Seq<char>) -> EventSeverity {
    if conclusion == "failure"@ {
        EventSeverity::Blocking
    } else {
        EventSeverity::Info
    }
}

/// The conclusion last seen for a run; a run never seen reads as empty.
pub open spec fn last_conclusion(cache: Map<Seq<char>, String>, run_id: Seq<char>) -> Seq<char> {
    if cache.dom().contains(run_id) {
        cache[run_id]@
    } else {
        Seq::empty()
    }
}

/// An event the CI monitor emits.
#[derive(Debug)]
pub struct CiChange {
    pub severity: EventSeverity,
    pub summary: String,
}

/// One CI run seen by the monitor: when its conclusion differs from the one
/// cached for it, the cache takes the new conclusion and an event
/// `CI {run_id}: {conclusion}` is due.
pub fn ci_transition(cache: &mut StrMap<String>, run_id: &str, conclusion: &str) -> (r: Option<CiChange>)
    requires
        old(cache).wf(),
    ensures
        final(cache).wf(),
        last_conclusion(old(cache)@, run_id@) == conclusion@ ==> r is None && final(cache)@ == old(cache)@,
        last_conclusion(old(cache)@, run_id@) != conclusion@ ==> (r matches Some(c) && c.severity == ci_severity(
            conclusion@,
        ) && c.summary@ == "CI "@ + run_id@ + ": "@ + conclusion@) && final(cache)@.dom() == old(cache)@.dom().insert(
            run_id@,
        ) && final(cache)@[run_id@]@ == conclusion@ && forall|k: Seq<char>|
            k != run_id@ && #[trigger] old(cache)@.dom().contains(k) ==> final(cache)@[k] == old(cache)@[k],
{
    proof {
        reveal_strlit("");
        reveal_strlit("CI ");
        reveal_strlit(": ");
        reveal_strlit("failure");
    }
    let prev_same = match cache.get(run_id) {
        Some(p) => {
            let b = str_eq(p.as_str(), conclusion);
            assert(old(cache)@.dom().contains(run_id@));
            assert(b == (p@ == conclusion@));
            assert(*p == old(cache)@[run_id@]);
            b
        },
        None => {
            let b = str_eq("", conclusion);
            assert(!old(cache)@.dom().contains(run_id@));
            assert(""@ =~= Seq::<char>::empty());
            b
        },
    };
    assert(prev_same == (last_conclusion(old(cache)@, run_id@) == conclusion@));
    if prev_same {
        return None;
    }
    cache.insert(owned(run_id), owned(conclusion));
    let severity = if str_eq(conclusion, "failure") {
        EventSeverity::Blocking
    } else {
        EventSeverity::Info
    };
    let mut summary = owned("CI ");
    push_str(&mut summary, run_id);
    push_str(&mut summary, ": ");
    push_str(&mut summary, conclusion);
    Some(CiChange { severity, summary })
}

/// An event the documentation monitor emits.
#[derive(Debug)]
pub struct DocAlert {
    pub severity: EventSeverity,
    pub age_seconds: i64,
    pub summary: String,
}

/// Seconds in a day and in a week.
pub const DAY_SECONDS: i64 = 86400;
pub const WEEK_SECONDS: i64 = 604800;

/// One check of the documentation monitor at time `now` (seconds), given
/// when it last alerted and the time of the last commit: documentation
/// untouched for over a day raises an alert at most once a day, a warning
/// once it is over a week old. The new `last_checked` is `now` on an alert.
pub fn doc_staleness(now: i64, last_checked: i64, last_commit_ts: i64) -> (r: Option<DocAlert>)
    requires
        i64::MIN <= now - last_commit_ts <= i64::MAX,
        now - DAY_SECONDS >= i64::MIN,
    ensures
        r is Some <==> (now - last_commit_ts > DAY_SECONDS && last_checked < now - DAY_SECONDS),
        r matches Some(a) ==> a.age_seconds == now - last_commit_ts && a.severity == (if now - last_commit_ts
            > WEEK_SECONDS {
            EventSeverity::Warning
        } else {
            EventSeverity::Info
        }) && a.summary@ == "Documentation last touched "@ + decimal(a.age_seconds as nat) + "s ago"@,
{
    let age = now - last_commit_ts;
    if age > DAY_SECONDS && last_checked < now - DAY_SECONDS {
        let severity = if age > WEEK_SECONDS {
            EventSeverity::Warning
        } else {
            EventSeverity::Info
        };
        let mut summary = owned("Documentation last touched ");
        push_decimal(&mut summary, age as u64);
        push_str(&mut summary, "s ago");
        Some(DocAlert { severity, age_seconds: age, summary })
    } else {
        None
    }
}

/// A CI run is reported once per conclusion: after a report the cache holds
/// the conclusion, so seeing it again reports nothing.
pub proof fn law_ci_reports_once(after: Map<Seq<char>, String>, run_id: Seq<char>, conclusion: Seq<char>)
    requires
        after.contains_key(run_id),
        after[run_id]@ == conclusion,
    ensures
        last_conclusion(after, run_id) == conclusion,
{
}

/// The documentation monitor alerts at most once a day: after an alert at
/// `now` (which becomes the last check), no check within the next day
/// alerts.
pub proof fn law_doc_alerts_daily(now: i64, later: i64)
    requires
        later - DAY_SECONDS <= now,
    ensures
        !(now < later - DAY_SECONDS),
{
}

} // verus!
