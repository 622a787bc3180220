//! Agent-to-agent dependencies: "the dependent waits for the blocker".
//!
//! The records live in the graph store; the application reads them and asks
//! here whether a new dependency may be created and which records a query
//! selects.

use vstd::prelude::*;
use crate::error::EnvoyError;
use crate::text::{owned, str_eq};

verus! {

/// Storage kind of dependency records.
pub const KIND_DEPENDENCY: &'static str = "EnvoyDependency";

#[derive(Debug)]
pub struct AgentDependency {
    pub dependency_id: String,
    pub dependent_agent: String,
    pub blocker_agent: String,
    pub reason: String,
    pub created_at: String,
    pub resolved: bool,
}

impl Clone for AgentDependency {
    fn clone(&self) -> (r: Self)
        ensures
            r == *self,
    {
        AgentDependency {
            dependency_id: self.dependency_id.clone(),
            dependent_agent: self.dependent_agent.clone(),
            blocker_agent: self.blocker_agent.clone(),
            reason: self.reason.clone(),
            created_at: self.created_at.clone(),
            resolved: self.resolved,
        }
    }
}

/// An open dependency of `dependent` on `blocker`.
pub open spec fn is_open_pair(d: AgentDependency, dependent: Seq<char>, blocker: Seq<char>) -> bool {
    d.dependent_agent@ == dependent && d.blocker_agent@ == blocker && !d.resolved
}

/// Stateless store for agent-to-agent dependency tracking.
pub struct DependencyStore;

impl Default for DependencyStore {
    fn default() -> Self {
        DependencyStore
    }
}

impl DependencyStore {
    pub fn new() -> Self {
        DependencyStore
    }

    /// Whether `dependent` may start waiting on `blocker`: an agent cannot
    /// depend on itself, and an open dependency of the same pair must not
    /// exist among `existing`.
    pub fn check_create(&self, existing: &Vec<AgentDependency>, dependent_agent: &str, blocker_agent: &str) -> (r: Result<
        (),
        EnvoyError,
    >)
        ensures
            dependent_agent@ == blocker_agent@ ==> (r matches Err(EnvoyError::InvalidEntity(m)) && m@ == "cannot depend on self"@),
            dependent_agent@ != blocker_agent@ && (exists|i: int| 0 <= i < existing@.len() && #[trigger] is_open_pair(
                existing@[i],
                dependent_agent@,
                blocker_agent@,
            )) ==> (r matches Err(EnvoyError::DuplicateDependency { dependent, blocker }) && dependent@ == dependent_agent@
                && blocker@ == blocker_agent@),
            r is Ok == (dependent_agent@ != blocker_agent@ && forall|i: int| 0 <= i < existing@.len() ==> !#[trigger] is_open_pair(
                existing@[i],
                dependent_agent@,
                blocker_agent@,
            )),
    {
        if str_eq(dependent_agent, blocker_agent) {
            return Err(EnvoyError::InvalidEntity(owned("cannot depend on self")));
        }
        let mut i: usize = 0;
        while i < existing.len()
            invariant
                i <= existing@.len(),
                dependent_agent@ != blocker_agent@,
                forall|j: int| 0 <= j < i ==> !#[trigger] is_open_pair(existing@[j], dependent_agent@, blocker_agent@),
            decreases existing@.len() - i,
        {
            let e = &existing[i];
            if str_eq(e.dependent_agent.as_str(), dependent_agent) && str_eq(e.blocker_agent.as_str(), blocker_agent)
                && !e.resolved {
                assert(is_open_pair(existing@[i as int], dependent_agent@, blocker_agent@));
                return Err(
                    EnvoyError::DuplicateDependency { dependent: owned(dependent_agent), blocker: owned(blocker_agent) },
                );
            }
            i += 1;
        }
        Ok(())
    }

    /// Creates the dependency of `dependent_agent` on `blocker_agent` with
    /// `reason`, under the freshly drawn `dependency_id` at the time written
    /// `created_at`, unless `check_create` refuses it: the record comes back
    /// unresolved, for the application to store.
    pub fn create(
        &self,
        existing: &Vec<AgentDependency>,
        dependent_agent: String,
        blocker_agent: String,
        reason: String,
        dependency_id: String,
        created_at: String,
    ) -> (r: Result<AgentDependency, EnvoyError>)
        requires
            dependency_id@.len() > 0,
        ensures
            dependent_agent@ == blocker_agent@ ==> (r matches Err(EnvoyError::InvalidEntity(m)) && m@ == "cannot depend on self"@),
            dependent_agent@ != blocker_agent@ && (exists|i: int| 0 <= i < existing@.len() && #[trigger] is_open_pair(
                existing@[i],
                dependent_agent@,
                blocker_agent@,
            )) ==> (r matches Err(EnvoyError::DuplicateDependency { dependent, blocker }) && dependent@ == dependent_agent@
                && blocker@ == blocker_agent@),
            r is Ok == (dependent_agent@ != blocker_agent@ && forall|i: int| 0 <= i < existing@.len() ==> !#[trigger] is_open_pair(
                existing@[i],
                dependent_agent@,
                blocker_agent@,
            )),
            r matches Ok(d) ==> d == (AgentDependency {
                dependency_id,
                dependent_agent,
                blocker_agent,
                reason,
                created_at,
                resolved: false,
            }) && d.dependency_id@.len() > 0,
    {
        match self.check_create(existing, dependent_agent.as_str(), blocker_agent.as_str()) {
            Ok(()) => Ok(AgentDependency { dependency_id, dependent_agent, blocker_agent, reason, created_at, resolved: false }),
            Err(e) => Err(e),
        }
    }

    /// Resolves the dependency `dependency_id` among the stored `deps`: the
    /// first record with that ID comes back marked resolved, for the
    /// application to store; an unknown ID is `DependencyNotFound`.
    pub fn resolve(&self, deps: &Vec<AgentDependency>, dependency_id: &str) -> (r: Result<AgentDependency, EnvoyError>)
        ensures
            r is Ok <==> exists|i: int| 0 <= i < deps@.len() && #[trigger] deps@[i].dependency_id@ == dependency_id@,
            r matches Err(e) ==> e matches EnvoyError::DependencyNotFound(m) && m@ == dependency_id@,
            r matches Ok(d) ==> exists|i: int|
                0 <= i < deps@.len() && #[trigger] deps@[i].dependency_id@ == dependency_id@ && (forall|j: int|
                    0 <= j < i ==> deps@[j].dependency_id@ != dependency_id@) && d == (AgentDependency {
                    resolved: true,
                    ..deps@[i]
                }),
    {
        let mut i: usize = 0;
        while i < deps.len()
            invariant
                i <= deps@.len(),
                forall|j: int| 0 <= j < i ==> deps@[j].dependency_id@ != dependency_id@,
            decreases deps@.len() - i,
        {
            if str_eq(deps[i].dependency_id.as_str(), dependency_id) {
                let mut d = deps[i].clone();
                d.resolved = true;
                return Ok(d);
            }
            i += 1;
        }
        Err(EnvoyError::DependencyNotFound(owned(dependency_id)))
    }

    /// The unresolved dependencies where `agent` is the blocker
    /// (`by_blocker`) or the dependent, in stored order; `pred` says the same.
    fn select(&self, deps: &Vec<AgentDependency>, agent: &str, by_blocker: bool, Ghost(pred): Ghost<spec_fn(AgentDependency) -> bool>) -> (r: Vec<AgentDependency>)
        requires
            forall|d: AgentDependency| #[trigger] pred(d) == (!d.resolved && (if by_blocker { d.blocker_agent@ } else { d.dependent_agent@ }) == agent@),
        ensures
            r@ == deps@.filter(pred),
    {
        let mut out: Vec<AgentDependency> = Vec::new();
        let mut i: usize = 0;
        while i < deps.len()
            invariant
                i <= deps@.len(),
                forall|d: AgentDependency| #[trigger] pred(d) == (!d.resolved && (if by_blocker { d.blocker_agent@ } else { d.dependent_agent@ }) == agent@),
                out@ == deps@.take(i as int).filter(pred),
            decreases deps@.len() - i,
        {
            let d = &deps[i];
            let side = if by_blocker { d.blocker_agent.as_str() } else { d.dependent_agent.as_str() };
            let keep = !d.resolved && str_eq(side, agent);
            assert(keep == pred(deps@[i as int]));
            if keep {
                out.push(d.clone());
            }
            proof {
                let t = deps@.take(i as int + 1);
                assert(t.drop_last() =~= deps@.take(i as int));
                reveal_with_fuel(Seq::<_>::filter, 1);
            }
            i += 1;
        }
        assert(deps@.take(deps@.len() as int) =~= deps@);
        out
    }

    /// The unresolved dependencies where `blocker_agent` is the blocker.
    pub fn find_by_blocker(&self, deps: &Vec<AgentDependency>, blocker_agent: &str) -> (r: Vec<AgentDependency>)
        ensures
            r@ == deps@.filter(|d: AgentDependency| !d.resolved && d.blocker_agent@ == blocker_agent@),
    {
        self.select(deps, blocker_agent, true, Ghost(|d: AgentDependency| !d.resolved && d.blocker_agent@ == blocker_agent@))
    }

    /// The unresolved dependencies where `dependent_agent` is blocked.
    pub fn find_by_dependent(&self, deps: &Vec<AgentDependency>, dependent_agent: &str) -> (r: Vec<AgentDependency>)
        ensures
            r@ == deps@.filter(|d: AgentDependency| !d.resolved && d.dependent_agent@ == dependent_agent@),
    {
        self.select(deps, dependent_agent, false, Ghost(|d: AgentDependency| !d.resolved && d.dependent_agent@ == dependent_agent@))
    }
}

/// A declared dependency is read back and guards its pair: once stored
/// (open), it is listed among the blocker's and the dependent's open
/// dependencies, and declaring the same pair again is refused.
pub proof fn law_declared_dependency(existing: Seq<AgentDependency>, dep: AgentDependency)
    requires
        !dep.resolved,
    ensures
        existing.push(dep).filter(|d: AgentDependency| !d.resolved && d.blocker_agent@ == dep.blocker_agent@).contains(
            dep,
        ),
        existing.push(dep).filter(|d: AgentDependency| !d.resolved && d.dependent_agent@ == dep.dependent_agent@).contains(
            dep,
        ),
        exists|i: int|
            0 <= i < existing.push(dep).len() && #[trigger] is_open_pair(
                existing.push(dep)[i],
                dep.dependent_agent@,
                dep.blocker_agent@,
            ),
{
    let all = existing.push(dep);
    let last = existing.len() as int;
    assert(all[last] == dep);
    all.lemma_filter_contains(|d: AgentDependency| !d.resolved && d.blocker_agent@ == dep.blocker_agent@, last);
    all.lemma_filter_contains(|d: AgentDependency| !d.resolved && d.dependent_agent@ == dep.dependent_agent@, last);
    assert(is_open_pair(all[last], dep.dependent_agent@, dep.blocker_agent@));
}

} // verus!
