//! What the web dashboard shows: graph statistics, tasks by kanban column,
//! and the audit timeline, computed from records the application reads out
//! of the knowledge graph.

use vstd::prelude::*;
use crate::assoc::StrMap;
use crate::text::{owned, str_eq};

verus! {

broadcast use vstd::string::group_string_axioms;

/// Dashboard statistics.
#[derive(Debug)]
pub struct DashboardStats {
    pub agents: usize,
    pub discoveries: usize,
    pub edges: usize,
    pub discovery_types: StrMap<usize>,
}

/// The count recorded last for `kind` among `(kind, count)` pairs, or 0.
pub open spec fn count_of(counts: Seq<(String, usize)>, kind: Seq<char>) -> int
    decreases counts.len(),
{
    if counts.len() == 0 {
        0
    } else if counts.last().0@ == kind {
        counts.last().1 as int
    } else {
        count_of(counts.drop_last(), kind)
    }
}

/// The sum of the counts.
pub open spec fn total(counts: Seq<(String, usize)>) -> int
    decreases counts.len(),
{
    if counts.len() == 0 {
        0
    } else {
        total(counts.drop_last()) + counts.last().1
    }
}

/// How many of the labels are `Some(k)`.
pub open spec fn occurrences(labels: Seq<Option<String>>, k: Seq<char>) -> nat
    decreases labels.len(),
{
    if labels.len() == 0 {
        0
    } else {
        occurrences(labels.drop_last(), k) + (if labels.last() matches Some(l) && l@ == k { 1nat } else { 0nat })
    }
}

proof fn lemma_occurrences_bound(labels: Seq<Option<String>>, k: Seq<char>)
    ensures
        occurrences(labels, k) <= labels.len(),
    decreases labels.len(),
{
    if labels.len() > 0 {
        lemma_occurrences_bound(labels.drop_last(), k);
    }
}

proof fn lemma_total_monotone(counts: Seq<(String, usize)>, i: int)
    requires
        0 <= i <= counts.len(),
    ensures
        total(counts.take(i)) <= total(counts),
    decreases counts.len() - i,
{
    if i < counts.len() {
        lemma_total_monotone(counts, i + 1);
        assert(counts.take(i + 1).drop_last() =~= counts.take(i));
    } else {
        assert(counts.take(i) =~= counts);
    }
}

impl DashboardStats {
    /// The statistics from the entity counts by kind (`Agent` and
    /// `Discovery` are reported), the edge counts by type (summed), and the
    /// type label of each discovery (counted per label; a discovery without
    /// one is not counted).
    pub fn from_counts(
        entity_counts: &Vec<(String, usize)>,
        edge_counts: &Vec<(String, usize)>,
        discovery_labels: &Vec<Option<String>>,
    ) -> (r: DashboardStats)
        requires
            total(edge_counts@) <= usize::MAX,
        ensures
            r.agents == count_of(entity_counts@, "Agent"@),
            r.discoveries == count_of(entity_counts@, "Discovery"@),
            r.edges == total(edge_counts@),
            r.discovery_types.wf(),
            forall|k: Seq<char>| #[trigger] r.discovery_types@.contains_key(k) <==> occurrences(discovery_labels@, k) > 0,
            forall|k: Seq<char>| #[trigger] r.discovery_types@.contains_key(k) ==> r.discovery_types@[k] == occurrences(
                discovery_labels@,
                k,
            ),
    {
        let mut agents: usize = 0;
        let mut discoveries: usize = 0;
        let mut i: usize = 0;
        while i < entity_counts.len()
            invariant
                i <= entity_counts@.len(),
                agents == count_of(entity_counts@.take(i as int), "Agent"@),
                discoveries == count_of(entity_counts@.take(i as int), "Discovery"@),
            decreases entity_counts@.len() - i,
        {
            let (kind, count) = (&entity_counts[i].0, entity_counts[i].1);
            proof {
                assert(entity_counts@.take(i as int + 1).drop_last() =~= entity_counts@.take(i as int));
                reveal_strlit("Agent");
                reveal_strlit("Discovery");
                assert("Agent"@ != "Discovery"@) by {
                    assert("Agent"@.len() != "Discovery"@.len());
                }
            }
            if str_eq(kind.as_str(), "Agent") {
                agents = count;
            } else if str_eq(kind.as_str(), "Discovery") {
                discoveries = count;
            }
            i += 1;
        }
        assert(entity_counts@.take(entity_counts@.len() as int) =~= entity_counts@);
        let mut edges: usize = 0;
        let mut j: usize = 0;
        while j < edge_counts.len()
            invariant
                j <= edge_counts@.len(),
                total(edge_counts@) <= usize::MAX,
                edges == total(edge_counts@.take(j as int)),
            decreases edge_counts@.len() - j,
        {
            proof {
                assert(edge_counts@.take(j as int + 1).drop_last() =~= edge_counts@.take(j as int));
                lemma_total_monotone(edge_counts@, j as int + 1);
            }
            edges = edges + edge_counts[j].1;
            j += 1;
        }
        assert(edge_counts@.take(edge_counts@.len() as int) =~= edge_counts@);
        let discovery_types = count_labels(discovery_labels);
        DashboardStats { agents, discoveries, edges, discovery_types }
    }
}

/// The number of occurrences of each label.
fn count_labels(labels: &Vec<Option<String>>) -> (m: StrMap<usize>)
    ensures
        m.wf(),
        forall|k: Seq<char>| #[trigger] m@.contains_key(k) <==> occurrences(labels@, k) > 0,
        forall|k: Seq<char>| #[trigger] m@.contains_key(k) ==> m@[k] == occurrences(labels@, k),
{
    let mut m: StrMap<usize> = StrMap::new();
    let mut i: usize = 0;
    while i < labels.len()
        invariant
            i <= labels@.len(),
            m.wf(),
            forall|k: Seq<char>| #[trigger] m@.contains_key(k) <==> occurrences(labels@.take(i as int), k) > 0,
            forall|k: Seq<char>| #[trigger] m@.contains_key(k) ==> m@[k] == occurrences(labels@.take(i as int), k),
        decreases labels@.len() - i,
    {
        let ghost before = m@;
        proof {
            assert(labels@.take(i as int + 1).drop_last() =~= labels@.take(i as int));
            assert(labels@.take(i as int + 1).last() == labels@[i as int]);
        }
        match &labels[i] {
            Some(l) => {
                let n: usize = match m.get(l.as_str()) {
                    Some(c) => *c,
                    None => 0,
                };
                proof {
                    lemma_occurrences_bound(labels@.take(i as int), l@);
                }
                m.insert(l.clone(), n + 1);
            },
            None => {},
        }
        i += 1;
    }
    assert(labels@.take(labels@.len() as int) =~= labels@);
    m
}

/// Task states, as the board reads them.
#[derive(Debug, Clone, Copy, PartialEq, Eq, Structural)]
pub enum TaskState {
    Proposed,
    Claimed,
    InProgress,
    WaitingReview,
    Done,
}

/// The kanban column of a task state.
pub open spec fn column(s: TaskState) -> Seq<char> {
    match s {
        TaskState::Proposed | TaskState::Claimed => "TODO"@,
        TaskState::InProgress | TaskState::WaitingReview => "IN_PROGRESS"@,
        TaskState::Done => "DONE"@,
    }
}

/// The kanban column of a task state: proposed and claimed tasks are to
/// do, tasks in progress or waiting for review are in progress.
pub fn kanban_column(s: TaskState) -> (r: &'static str)
    ensures
        r@ == column(s),
{
    proof {
        reveal_strlit("TODO");
        reveal_strlit("IN_PROGRESS");
        reveal_strlit("DONE");
    }
    match s {
        TaskState::Proposed | TaskState::Claimed => "TODO",
        TaskState::InProgress | TaskState::WaitingReview => "IN_PROGRESS",
        TaskState::Done => "DONE",
    }
}

/// A task as the board shows it.
#[derive(Debug)]
pub struct KanbanTask {
    pub id: String,
    pub description: String,
    pub state: String,
    pub claimed_by: Option<String>,
}

/// A stored task as the board reads it.
#[derive(Debug)]
pub struct TaskCard {
    pub id: String,
    pub description: String,
    pub state: TaskState,
    pub claimed_by: Option<String>,
}

/// `k` shows `t` in its column.
pub open spec fn shows(k: KanbanTask, t: TaskCard) -> bool {
    k.id == t.id && k.description == t.description && k.state@ == column(t.state) && k.claimed_by == t.claimed_by
}

/// The tasks of column `c`, in order.
pub open spec fn in_column(ts: Seq<TaskCard>, c: Seq<char>) -> Seq<TaskCard> {
    ts.filter(|t: TaskCard| column(t.state) == c)
}

/// `board` holds each column that has tasks, with those tasks in order.
pub open spec fn board_of(board: Map<Seq<char>, Vec<KanbanTask>>, ts: Seq<TaskCard>) -> bool {
    &&& forall|c: Seq<char>| #[trigger] board.contains_key(c) <==> in_column(ts, c).len() > 0
    &&& forall|c: Seq<char>| #[trigger]
        board.contains_key(c) ==> board[c]@.len() == in_column(ts, c).len() && forall|j: int|
            0 <= j < board[c]@.len() ==> shows(#[trigger] board[c]@[j], in_column(ts, c)[j])
}

/// Tasks grouped by kanban column, each column in the tasks' order.
pub fn group_by_column(tasks: Vec<TaskCard>) -> (m: StrMap<Vec<KanbanTask>>)
    ensures
        m.wf(),
        board_of(m@, tasks@),
{
    let mut m: StrMap<Vec<KanbanTask>> = StrMap::new();
    let ghost all = tasks@;
    let n = tasks.len();
    let mut i: usize = 0;
    let mut rest = tasks;
    proof {
        assert forall|c: Seq<char>| #[trigger] m@.contains_key(c) <==> in_column(all.take(0), c).len() > 0 by {
            assert(all.take(0).filter(|t: TaskCard| column(t.state) == c) =~= Seq::<TaskCard>::empty());
        }
    }
    while rest.len() > 0
        invariant
            i + rest@.len() == all.len(),
            all.len() <= usize::MAX,
            rest@ == all.skip(i as int),
            m.wf(),
            board_of(m@, all.take(i as int)),
        decreases rest@.len(),
    {
        let t = rest.remove(0);
        let ghost before = m@;
        let ghost prefix = all.take(i as int);
        let ghost next = all.take(i as int + 1);
        proof {
            assert(t == all[i as int]);
            assert(rest@ =~= all.skip(i as int + 1));
            assert(next.drop_last() =~= prefix);
            assert(next.last() == t);
        }
        let col = kanban_column(t.state);
        let card = KanbanTask { id: t.id, description: t.description, state: owned(col), claimed_by: t.claimed_by };
        let ghost tc = t;
        let mut list = match m.remove(col) {
            Some(v) => v,
            None => Vec::new(),
        };
        let ghost old_list = list;
        list.push(card);
        m.insert(owned(col), list);
        proof {
            assert forall|c: Seq<char>| #[trigger]
                in_column(next, c) == if c == column(tc.state) {
                    in_column(prefix, c).push(tc)
                } else {
                    in_column(prefix, c)
                } by {
                reveal_with_fuel(Seq::<_>::filter, 1);
            }
            assert(shows(card, tc));
            assert forall|c: Seq<char>| #[trigger] m@.contains_key(c) <==> in_column(next, c).len() > 0 by {}
            assert forall|c: Seq<char>| #[trigger] m@.contains_key(c) implies m@[c]@.len() == in_column(next, c).len()
                && forall|j: int| 0 <= j < m@[c]@.len() ==> shows(#[trigger] m@[c]@[j], in_column(next, c)[j]) by {
                if c == column(tc.state) {
                    if before.contains_key(c) {
                        assert(old_list == before[c]);
                    } else {
                        assert(in_column(prefix, c).len() == 0);
                    }
                    assert forall|j: int| 0 <= j < m@[c]@.len() implies shows(#[trigger] m@[c]@[j], in_column(next, c)[j]) by {
                        if j < old_list@.len() {
                            assert(m@[c]@[j] == old_list@[j]);
                        }
                    }
                }
            }
        }
        i += 1;
    }
    assert(all.take(all.len() as int) =~= all);
    m
}

/// The agent an audit record is shown under: the one its data names, else
/// `unknown`.
pub fn audit_agent_label(agent_id: Option<String>) -> (r: String)
    ensures
        r@ == match agent_id {
            Some(a) => a@,
            None => "unknown"@,
        },
{
    proof {
        reveal_strlit("unknown");
    }
    match agent_id {
        Some(a) => a,
        None => owned("unknown"),
    }
}

/// The ids kept when `candidates` are added one by one to a list holding
/// `existing`, each skipped when its id is already there.
pub open spec fn added_ids(existing: Seq<Seq<char>>, candidates: Seq<Seq<char>>) -> Seq<Seq<char>>
    decreases candidates.len(),
{
    if candidates.len() == 0 {
        Seq::empty()
    } else {
        let prev = added_ids(existing, candidates.drop_last());
        let c = candidates.last();
        if existing.contains(c) || prev.contains(c) {
            prev
        } else {
            prev.push(c)
        }
    }
}

/// Positions of the `candidates` to append to a list of edges whose ids
/// are `existing`: an edge is appended only when no edge of its id is in
/// the list yet, counting the ones appended before it.
pub fn new_edge_positions(existing: &Vec<String>, candidates: &Vec<String>) -> (r: Vec<usize>)
    ensures
        forall|j: int| 0 <= j < r@.len() ==> #[trigger] r@[j] < candidates@.len(),
        forall|j: int, l: int| 0 <= j < l < r@.len() ==> r@[j] < r@[l],
        r@.map_values(|p: usize| candidates@[p as int]@) == added_ids(
            existing@.map_values(|s: String| s@),
            candidates@.map_values(|s: String| s@),
        ),
{
    let ghost ex = existing@.map_values(|s: String| s@);
    let ghost cs = candidates@.map_values(|s: String| s@);
    let mut kept: Vec<usize> = Vec::new();
    let mut i: usize = 0;
    while i < candidates.len()
        invariant
            i <= candidates@.len(),
            ex == existing@.map_values(|s: String| s@),
            cs == candidates@.map_values(|s: String| s@),
            forall|j: int| 0 <= j < kept@.len() ==> #[trigger] kept@[j] < i,
            forall|j: int, l: int| 0 <= j < l < kept@.len() ==> kept@[j] < kept@[l],
            kept@.map_values(|p: usize| candidates@[p as int]@) == added_ids(ex, cs.take(i as int)),
        decreases candidates@.len() - i,
    {
        let c = candidates[i].as_str();
        let mut seen_ex = false;
        let mut j: usize = 0;
        while j < existing.len()
            invariant
                j <= existing@.len(),
                ex == existing@.map_values(|s: String| s@),
                seen_ex == exists|l: int| 0 <= l < j && ex[l] == c@,
            decreases existing@.len() - j,
        {
            assert(ex[j as int] == existing@[j as int]@);
            if str_eq(existing[j].as_str(), c) {
                seen_ex = true;
            }
            j += 1;
        }
        let ghost prev = kept@.map_values(|p: usize| candidates@[p as int]@);
        let mut seen_kept = false;
        let mut k: usize = 0;
        while k < kept.len()
            invariant
                k <= kept@.len(),
                prev == kept@.map_values(|p: usize| candidates@[p as int]@),
                forall|j: int| 0 <= j < kept@.len() ==> #[trigger] kept@[j] < i,
                i < candidates@.len(),
                seen_kept == exists|l: int| 0 <= l < k && prev[l] == c@,
            decreases kept@.len() - k,
        {
            assert(prev[k as int] == candidates@[kept@[k as int] as int]@);
            if str_eq(candidates[kept[k]].as_str(), c) {
                seen_kept = true;
            }
            k += 1;
        }
        let seen = seen_ex || seen_kept;
        proof {
            assert(cs.take(i as int + 1).drop_last() =~= cs.take(i as int));
            assert(cs.take(i as int + 1).last() == c@);
            assert(seen_ex == ex.contains(c@));
            assert(seen_kept == prev.contains(c@));
        }
        if !seen {
            proof {
                assert(kept@.push(i).map_values(|p: usize| candidates@[p as int]@) =~= prev.push(c@));
            }
            kept.push(i);
        }
        i += 1;
    }
    assert(cs.take(candidates@.len() as int) =~= cs);
    kept
}

/// Query of the audit timeline.
#[derive(Debug)]
pub struct AuditQuery {
    pub limit: Option<usize>,
    pub since: Option<String>,
}

} // verus!
