//! What the nudge loop sends about a stale agent: the nudge itself, a
//! warning to each agent blocked on it, and a notice for each task taken
//! back from it.

use vstd::prelude::*;
use crate::dependency::AgentDependency;
use crate::status::{AgentState, NudgeMessage, NudgeSeverity};
use crate::text::{decimal, owned, push_char, push_decimal, push_str};

verus! {

broadcast use vstd::string::group_string_axioms;

/// Decimal notation of an integer, with a `-` when it is negative.
pub open spec fn signed_decimal(n: int) -> Seq<char> {
    if n < 0 {
        seq!['-'] + decimal((-n) as nat)
    } else {
        decimal(n as nat)
    }
}

/// Appends the decimal notation of `n`.
pub fn push_signed(s: &mut String, n: i64)
    ensures
        final(s)@ == old(s)@ + signed_decimal(n as int),
{
    if n < 0 {
        push_char(s, '-');
        let m: u64 = if n == i64::MIN {
            9223372036854775808u64
        } else {
            (-n) as u64
        };
        let ghost mid = s@;
        push_decimal(s, m);
        assert(s@ =~= old(s)@ + signed_decimal(n as int));
    } else {
        push_decimal(s, n as u64);
    }
}

/// The label of an agent's state, `unknown` when it reported none.
pub open spec fn status_label(status: Option<AgentState>) -> Seq<char> {
    match status {
        Some(st) => st.name(),
        None => "unknown"@,
    }
}

/// The nudge sent to an agent and the notices about it.
#[derive(Debug)]
pub struct NudgePlan {
    /// Why the agent is nudged.
    pub reason: String,
    /// The state reported to the agents blocked on it.
    pub blocker_status: String,
    /// Each blocked agent and the warning it receives.
    pub blocker_notices: Vec<(String, String)>,
    /// Each task taken back and the notice the agent receives.
    pub reclaim_notices: Vec<(String, String)>,
}

pub open spec fn nudge_reason(threshold: i64, status: Option<AgentState>) -> Seq<char> {
    "No heartbeat for "@ + signed_decimal(threshold as int) + " minutes. Current status: \""@ + status_label(status)
        + "\""@
}

pub open spec fn blocker_warning(agent: Seq<char>, threshold: i64) -> Seq<char> {
    "Your blocker ("@ + agent + ") may be stalled \u{2014} no heartbeat for "@ + signed_decimal(threshold as int) + "m"@
}

pub open spec fn reclaim_notice(agent: Seq<char>) -> Seq<char> {
    "Task reclaimed \u{2014} "@ + agent + " is stale"@
}

/// The pairs by the characters of their texts.
pub open spec fn pair_views(s: Seq<(String, String)>) -> Seq<(Seq<char>, Seq<char>)> {
    s.map_values(|p: (String, String)| (p.0@, p.1@))
}

fn label_of(status: Option<AgentState>) -> (r: &'static str)
    ensures
        r@ == status_label(status),
{
    proof {
        reveal_strlit("unknown");
    }
    match status {
        Some(st) => st.as_str(),
        None => "unknown",
    }
}

/// What to send about `agent_id`, found without a heartbeat for
/// `threshold` minutes in state `status`, given the open dependencies it
/// blocks and the tasks taken back from it.
pub fn nudge_plan(
    agent_id: &str,
    status: Option<AgentState>,
    threshold: i64,
    blocked: &Vec<AgentDependency>,
    reclaimed: &Vec<String>,
) -> (r: NudgePlan)
    ensures
        r.reason@ == nudge_reason(threshold, status),
        r.blocker_status@ == status_label(status),
        pair_views(r.blocker_notices@) == blocked@.map_values(
            |d: AgentDependency| (d.dependent_agent@, blocker_warning(agent_id@, threshold)),
        ),
        pair_views(r.reclaim_notices@) == reclaimed@.map_values(|t: String| (t@, reclaim_notice(agent_id@))),
{
    let label = label_of(status);
    let mut reason = owned("No heartbeat for ");
    push_signed(&mut reason, threshold);
    push_str(&mut reason, " minutes. Current status: \"");
    push_str(&mut reason, label);
    push_str(&mut reason, "\"");
    let mut warning = owned("Your blocker (");
    push_str(&mut warning, agent_id);
    push_str(&mut warning, ") may be stalled \u{2014} no heartbeat for ");
    push_signed(&mut warning, threshold);
    push_str(&mut warning, "m");
    let mut notices: Vec<(String, String)> = Vec::new();
    let mut i: usize = 0;
    while i < blocked.len()
        invariant
            i <= blocked@.len(),
            warning@ == blocker_warning(agent_id@, threshold),
            pair_views(notices@) == blocked@.take(i as int).map_values(
                |d: AgentDependency| (d.dependent_agent@, blocker_warning(agent_id@, threshold)),
            ),
        decreases blocked@.len() - i,
    {
        let p = (blocked[i].dependent_agent.clone(), warning.clone());
        proof {
            assert(pair_views(notices@.push(p)) =~= pair_views(notices@).push((p.0@, p.1@)));
            assert(blocked@.take(i as int + 1) =~= blocked@.take(i as int).push(blocked@[i as int]));
        }
        notices.push(p);
        i += 1;
    }
    assert(blocked@.take(blocked@.len() as int) =~= blocked@);
    let mut notice = owned("Task reclaimed \u{2014} ");
    push_str(&mut notice, agent_id);
    push_str(&mut notice, " is stale");
    let mut reclaims: Vec<(String, String)> = Vec::new();
    let mut j: usize = 0;
    while j < reclaimed.len()
        invariant
            j <= reclaimed@.len(),
            notice@ == reclaim_notice(agent_id@),
            pair_views(reclaims@) == reclaimed@.take(j as int).map_values(|t: String| (t@, reclaim_notice(agent_id@))),
        decreases reclaimed@.len() - j,
    {
        let p = (reclaimed[j].clone(), notice.clone());
        proof {
            assert(pair_views(reclaims@.push(p)) =~= pair_views(reclaims@).push((p.0@, p.1@)));
            assert(reclaimed@.take(j as int + 1) =~= reclaimed@.take(j as int).push(reclaimed@[j as int]));
        }
        reclaims.push(p);
        j += 1;
    }
    assert(reclaimed@.take(reclaimed@.len() as int) =~= reclaimed@);
    NudgePlan { reason, blocker_status: owned(label), blocker_notices: notices, reclaim_notices: reclaims }
}

/// The nudge a heartbeat answers with for one dependent of the agent.
pub open spec fn unblock_reason(dependent: Seq<char>) -> Seq<char> {
    "Dependent "@ + dependent + " may now be unblocked"@
}

/// The nudges a heartbeat is answered with: one, informational, for each
/// open dependency the agent blocks, in order.
pub fn heartbeat_nudges(blocked: &Vec<AgentDependency>) -> (r: Vec<NudgeMessage>)
    ensures
        r@.len() == blocked@.len(),
        forall|i: int|
            0 <= i < r@.len() ==> (#[trigger] r@[i]).reason@ == unblock_reason(blocked@[i].dependent_agent@)
                && r@[i].severity == NudgeSeverity::Info,
{
    let mut out: Vec<NudgeMessage> = Vec::new();
    let mut i: usize = 0;
    while i < blocked.len()
        invariant
            i <= blocked@.len(),
            out@.len() == i,
            forall|j: int|
                0 <= j < i ==> (#[trigger] out@[j]).reason@ == unblock_reason(blocked@[j].dependent_agent@)
                    && out@[j].severity == NudgeSeverity::Info,
        decreases blocked@.len() - i,
    {
        let mut reason = owned("Dependent ");
        push_str(&mut reason, blocked[i].dependent_agent.as_str());
        push_str(&mut reason, " may now be unblocked");
        out.push(NudgeMessage { reason, severity: NudgeSeverity::Info });
        i += 1;
    }
    out
}

} // verus!
