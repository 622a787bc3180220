//! Event fan-out and per-agent delivery tracking. The records live in the
//! graph store, which the application reads and writes; the library decides
//! which of them a query returns, in what order, and which are stale.

use vstd::prelude::*;
use crate::order::{
    cap_by_limit, in_order, int_keys, int_positions, kept_flags, law_sort_positions_ordered, lemma_cap_is_prefix,
    lemma_kept_flags_complete, lemma_kept_flags_flagged, lemma_sort_positions_complete, ordered_positions,
    sort_positions,
};
use crate::text::{push_str, str_eq};
use crate::time::{parse_rfc3339, rfc3339_instant, UtcInstant};

verus! {

/// Storage kind of delivery records.
pub const KIND_DELIVERY: &'static str = "EnvoyEventDelivery";

/// Nanoseconds in a day: records older than this are purged.
pub const DAY_NANOS: i128 = 86_400_000_000_000;

/// The fields of a stored event that queries read: its store id, its project
/// and its `timestamp` text.
pub struct EventRecord {
    pub id: String,
    pub project: String,
    pub timestamp: String,
}

/// A stored delivery record: which agent got which event, and when.
pub struct DeliveryRecord {
    pub agent_id: String,
    pub event_id: String,
    pub delivered_at: String,
}

/// Nanoseconds since the epoch of a (seconds, nanoseconds) pair.
pub open spec fn instant_nanos(p: (i64, u32)) -> int {
    p.0 * 1_000_000_000 + p.1
}

/// The instant an event is ordered by: its timestamp, or `now` when the text
/// does not read as RFC 3339.
pub open spec fn event_time(stamp: Seq<char>, now: UtcInstant) -> int {
    match rfc3339_instant(stamp) {
        Some(p) => instant_nanos(p),
        None => now.total_nanos(),
    }
}

/// The lower bound of a query: the `since` text read as RFC 3339; an
/// unreadable or absent text sets none.
pub open spec fn since_instant(since: Option<&str>) -> Option<(i64, u32)> {
    match since {
        Some(s) => rfc3339_instant(s@),
        None => None,
    }
}

/// Whether a query of `project` after `since` returns the event: same
/// project, and a readable timestamp strictly after the bound if one is set.
pub open spec fn query_keeps(e: EventRecord, project: Seq<char>, since: Option<(i64, u32)>) -> bool {
    &&& e.project@ == project
    &&& match since {
        None => true,
        Some(c) => match rfc3339_instant(e.timestamp@) {
            Some(t) => instant_nanos(t) > instant_nanos(c),
            None => false,
        },
    }
}

/// The positions of the events a query returns, in the order returned:
/// newest first (equal instants in stored order), cut to `limit`.
pub open spec fn queried(
    events: Seq<EventRecord>,
    project: Seq<char>,
    since: Option<&str>,
    limit: Option<i64>,
    now: UtcInstant,
) -> Seq<int> {
    cap_by_limit(
        sort_positions(
            kept_flags(Seq::new(events.len(), |j: int| query_keeps(events[j], project, since_instant(since)))),
            Seq::new(events.len(), |j: int| event_time(events[j].timestamp@, now)),
            true,
        ),
        limit,
    )
}

/// Whether some delivery record says `agent` got the event `event_id`.
pub open spec fn delivered_to(deliveries: Seq<DeliveryRecord>, agent: Seq<char>, event_id: Seq<char>) -> bool {
    exists|k: int|
        0 <= k < deliveries.len() && #[trigger] deliveries[k].agent_id@ == agent && deliveries[k].event_id@ == event_id
}

/// Whether the event is owed to `agent`: it belongs to the project and was not
/// delivered to that agent.
pub open spec fn owed(e: EventRecord, deliveries: Seq<DeliveryRecord>, agent: Seq<char>, project: Seq<char>) -> bool {
    e.project@ == project && !delivered_to(deliveries, agent, e.id@)
}

/// The positions of the events owed to `agent`, oldest first (equal instants
/// in stored order), cut to `limit`.
pub open spec fn undelivered(
    events: Seq<EventRecord>,
    deliveries: Seq<DeliveryRecord>,
    agent: Seq<char>,
    project: Seq<char>,
    limit: Option<i64>,
    now: UtcInstant,
) -> Seq<int> {
    cap_by_limit(
        sort_positions(
            kept_flags(Seq::new(events.len(), |j: int| owed(events[j], deliveries, agent, project))),
            Seq::new(events.len(), |j: int| event_time(events[j].timestamp@, now)),
            false,
        ),
        limit,
    )
}

/// Whether a record stamped `stamp` is more than a day older than `now`; an
/// unreadable stamp is never stale.
pub open spec fn stale(stamp: Seq<char>, now: UtcInstant) -> bool {
    match rfc3339_instant(stamp) {
        Some(t) => instant_nanos(t) < now.total_nanos() - DAY_NANOS,
        None => false,
    }
}

/// Nanoseconds since the epoch of an instant.
pub fn nanos_of(t: UtcInstant) -> (r: i128)
    ensures
        r == t.total_nanos(),
{
    let s: i128 = t.secs as i128;
    assert(s * 1_000_000_000 <= i64::MAX * 1_000_000_000 && s * 1_000_000_000 >= i64::MIN * 1_000_000_000)
        by (nonlinear_arith)
        requires
            i64::MIN <= s <= i64::MAX,
    ;
    s * 1_000_000_000i128 + t.nanos as i128
}

/// The ordering key of an event stamped `stamp`.
fn event_key(stamp: &str, now: UtcInstant) -> (r: (i128, Option<UtcInstant>))
    ensures
        r.0 == event_time(stamp@, now),
        r.1 is Some == rfc3339_instant(stamp@) is Some,
        r.1 matches Some(t) ==> rfc3339_instant(stamp@) == Some((t.secs, t.nanos)),
{
    let ts = parse_rfc3339(stamp);
    match ts {
        Some(t) => (nanos_of(t), ts),
        None => (nanos_of(now), ts),
    }
}

/// Positions `i` of `stamps` where `stale(stamps[i], now)`, in order.
fn stale_positions(stamps: Vec<&str>, now: UtcInstant) -> (r: Vec<usize>)
    ensures
        int_positions(r@) == kept_flags(Seq::new(stamps@.len(), |j: int| stale(stamps@[j]@, now))),
{
    let ghost flags = Seq::new(stamps@.len(), |j: int| stale(stamps@[j]@, now));
    let mut out: Vec<usize> = Vec::new();
    let mut i: usize = 0;
    proof {
        assert(flags.take(0) =~= Seq::<bool>::empty());
        assert(int_positions(out@) =~= Seq::<int>::empty());
    }
    while i < stamps.len()
        invariant
            flags == Seq::new(stamps@.len(), |j: int| stale(stamps@[j]@, now)),
            i <= stamps@.len(),
            int_positions(out@) == kept_flags(flags.take(i as int)),
        decreases stamps@.len() - i,
    {
        proof {
            assert(flags.take(i as int + 1).drop_last() =~= flags.take(i as int));
            assert(flags.take(i as int + 1).last() == flags[i as int]);
        }
        let (_, ts) = event_key(stamps[i], now);
        let is_stale = match ts {
            Some(t) => nanos_of(t) < nanos_of(now) - DAY_NANOS,
            None => false,
        };
        if is_stale {
            let ghost before = out@;
            out.push(i);
            assert(int_positions(out@) =~= int_positions(before).push(i as int));
        }
        i += 1;
    }
    assert(flags.take(stamps@.len() as int) =~= flags);
    out
}

/// Tracks per-agent event delivery so offline agents get precise replay.
pub struct DeliveryTracker;

impl Default for DeliveryTracker {
    fn default() -> Self {
        DeliveryTracker
    }
}

impl DeliveryTracker {
    pub fn new() -> Self {
        DeliveryTracker
    }

    /// The store name of the record that `agent_id` got `event_id`:
    /// `dlv-{agent_id}-{event_id}`. Recording is skipped when a record of
    /// that name exists.
    pub fn delivery_name(&self, agent_id: &str, event_id: &str) -> (r: String)
        ensures
            r@ == "dlv-"@ + agent_id@ + "-"@ + event_id@,
    {
        let mut s = String::new();
        push_str(&mut s, "dlv-");
        push_str(&mut s, agent_id);
        push_str(&mut s, "-");
        push_str(&mut s, event_id);
        s
    }

    /// Whether a delivery record says `agent_id` got `event_id`.
    pub fn was_delivered(&self, deliveries: &Vec<DeliveryRecord>, agent_id: &str, event_id: &str) -> (r: bool)
        ensures
            r == delivered_to(deliveries@, agent_id@, event_id@),
    {
        let mut i: usize = 0;
        while i < deliveries.len()
            invariant
                i <= deliveries@.len(),
                forall|k: int|
                    0 <= k < i ==> !(#[trigger] deliveries@[k].agent_id@ == agent_id@ && deliveries@[k].event_id@
                        == event_id@),
            decreases deliveries@.len() - i,
        {
            let d = &deliveries[i];
            if str_eq(d.agent_id.as_str(), agent_id) && str_eq(d.event_id.as_str(), event_id) {
                assert(deliveries@[i as int].agent_id@ == agent_id@);
                return true;
            }
            i += 1;
        }
        false
    }

    /// The positions of the events of `project` not yet delivered to
    /// `agent_id`, oldest first, at most `limit` of them. An event whose
    /// timestamp does not read is ordered as if stamped `now`.
    pub fn undelivered_order(
        &self,
        events: &Vec<EventRecord>,
        deliveries: &Vec<DeliveryRecord>,
        agent_id: &str,
        project: &str,
        limit: Option<i64>,
        now: UtcInstant,
    ) -> (r: Vec<usize>)
        ensures
            int_positions(r@) == undelivered(events@, deliveries@, agent_id@, project@, limit, now),
    {
        let ghost ev = events@;
        let mut keys: Vec<i128> = Vec::new();
        let mut keep: Vec<bool> = Vec::new();
        let mut i: usize = 0;
        while i < events.len()
            invariant
                ev == events@,
                i <= ev.len(),
                keys@.len() == i,
                keep@.len() == i,
                forall|j: int| 0 <= j < i ==> #[trigger] keys@[j] as int == event_time(ev[j].timestamp@, now),
                forall|j: int| 0 <= j < i ==> #[trigger] keep@[j] == owed(ev[j], deliveries@, agent_id@, project@),
            decreases ev.len() - i,
        {
            let e = &events[i];
            let (key, _) = event_key(e.timestamp.as_str(), now);
            let k = str_eq(e.project.as_str(), project) && !self.was_delivered(deliveries, agent_id, e.id.as_str());
            keys.push(key);
            keep.push(k);
            i += 1;
        }
        proof {
            assert(int_keys(keys@) =~= Seq::new(ev.len(), |j: int| event_time(ev[j].timestamp@, now)));
            assert(keep@ =~= Seq::new(ev.len(), |j: int| owed(ev[j], deliveries@, agent_id@, project@)));
        }
        ordered_positions(&keys, &keep, false, limit)
    }

    /// The positions of the delivery records older than a day.
    pub fn stale_deliveries(&self, deliveries: &Vec<DeliveryRecord>, now: UtcInstant) -> (r: Vec<usize>)
        ensures
            int_positions(r@) == kept_flags(Seq::new(deliveries@.len(), |j: int| stale(deliveries@[j].delivered_at@, now))),
    {
        let mut stamps: Vec<&str> = Vec::new();
        let mut i: usize = 0;
        while i < deliveries.len()
            invariant
                i <= deliveries@.len(),
                stamps@.len() == i,
                forall|j: int| 0 <= j < i ==> #[trigger] stamps@[j]@ == deliveries@[j].delivered_at@,
            decreases deliveries@.len() - i,
        {
            stamps.push(deliveries[i].delivered_at.as_str());
            i += 1;
        }
        let ghost st = stamps@;
        let r = stale_positions(stamps, now);
        assert(Seq::new(st.len(), |j: int| stale(st[j]@, now)) =~= Seq::new(
            deliveries@.len(),
            |j: int| stale(deliveries@[j].delivered_at@, now),
        ));
        r
    }
}

pub struct EventBus;

impl Default for EventBus {
    fn default() -> Self {
        EventBus
    }
}

impl EventBus {
    pub fn new() -> (r: Self)
        ensures
            r == EventBus,
    {
        EventBus
    }

    /// The positions of the events a query returns: those of `project`
    /// stamped after `since` (when it reads as RFC 3339), newest first, at
    /// most `limit` of them. An event whose timestamp does not read is
    /// ordered as if stamped `now`.
    pub fn query_order(
        &self,
        events: &Vec<EventRecord>,
        project: &str,
        since: Option<&str>,
        limit: Option<i64>,
        now: UtcInstant,
    ) -> (r: Vec<usize>)
        ensures
            int_positions(r@) == queried(events@, project@, since, limit, now),
    {
        let ghost ev = events@;
        let since_dt = match since {
            Some(s) => parse_rfc3339(s),
            None => None,
        };
        let mut keys: Vec<i128> = Vec::new();
        let mut keep: Vec<bool> = Vec::new();
        let mut i: usize = 0;
        while i < events.len()
            invariant
                ev == events@,
                i <= ev.len(),
                keys@.len() == i,
                keep@.len() == i,
                since_dt is Some == since_instant(since) is Some,
                since_dt matches Some(c) ==> since_instant(since) == Some((c.secs, c.nanos)),
                forall|j: int| 0 <= j < i ==> #[trigger] keys@[j] as int == event_time(ev[j].timestamp@, now),
                forall|j: int| 0 <= j < i ==> #[trigger] keep@[j] == query_keeps(ev[j], project@, since_instant(since)),
            decreases ev.len() - i,
        {
            let e = &events[i];
            let (key, ts) = event_key(e.timestamp.as_str(), now);
            let after = match since_dt {
                None => true,
                Some(c) => match ts {
                    Some(t) => nanos_of(t) > nanos_of(c),
                    None => false,
                },
            };
            let k = str_eq(e.project.as_str(), project) && after;
            keys.push(key);
            keep.push(k);
            i += 1;
        }
        proof {
            assert(int_keys(keys@) =~= Seq::new(ev.len(), |j: int| event_time(ev[j].timestamp@, now)));
            assert(keep@ =~= Seq::new(ev.len(), |j: int| query_keeps(ev[j], project@, since_instant(since))));
        }
        ordered_positions(&keys, &keep, true, limit)
    }

    /// The positions of the events older than a day.
    pub fn stale_events(&self, events: &Vec<EventRecord>, now: UtcInstant) -> (r: Vec<usize>)
        ensures
            int_positions(r@) == kept_flags(Seq::new(events@.len(), |j: int| stale(events@[j].timestamp@, now))),
    {
        let mut stamps: Vec<&str> = Vec::new();
        let mut i: usize = 0;
        while i < events.len()
            invariant
                i <= events@.len(),
                stamps@.len() == i,
                forall|j: int| 0 <= j < i ==> #[trigger] stamps@[j]@ == events@[j].timestamp@,
            decreases events@.len() - i,
        {
            stamps.push(events[i].timestamp.as_str());
            i += 1;
        }
        let ghost st = stamps@;
        let r = stale_positions(stamps, now);
        assert(Seq::new(st.len(), |j: int| stale(st[j]@, now)) =~= Seq::new(
            events@.len(),
            |j: int| stale(events@[j].timestamp@, now),
        ));
        r
    }
}

/// Replay never hands an agent an event it already got: every event that
/// `undelivered` returns belongs to the project, has no delivery record for
/// the agent, and they come oldest first.
pub proof fn law_replay_owed_only(
    events: Seq<EventRecord>,
    deliveries: Seq<DeliveryRecord>,
    agent: Seq<char>,
    project: Seq<char>,
    limit: Option<i64>,
    now: UtcInstant,
)
    ensures
        forall|j: int|
            0 <= j < undelivered(events, deliveries, agent, project, limit, now).len() ==> {
                let p = #[trigger] undelivered(events, deliveries, agent, project, limit, now)[j];
                &&& 0 <= p < events.len()
                &&& events[p].project@ == project
                &&& !delivered_to(deliveries, agent, events[p].id@)
            },
        forall|a: int, b: int|
            0 <= a < b < undelivered(events, deliveries, agent, project, limit, now).len() ==> event_time(
                events[#[trigger] undelivered(events, deliveries, agent, project, limit, now)[a]].timestamp@,
                now,
            ) <= event_time(events[#[trigger] undelivered(events, deliveries, agent, project, limit, now)[b]].timestamp@, now),
{
    let flags = Seq::new(events.len(), |j: int| owed(events[j], deliveries, agent, project));
    let keys = Seq::new(events.len(), |j: int| event_time(events[j].timestamp@, now));
    let sorted = sort_positions(kept_flags(flags), keys, false);
    let r = undelivered(events, deliveries, agent, project, limit, now);
    law_sort_positions_ordered(kept_flags(flags), keys, false);
    lemma_kept_flags_flagged(flags);
    lemma_cap_is_prefix(sorted, limit);
    assert forall|j: int| 0 <= j < r.len() implies {
        let p = #[trigger] r[j];
        &&& 0 <= p < events.len()
        &&& events[p].project@ == project
        &&& !delivered_to(deliveries, agent, events[p].id@)
    } by {
        assert(r[j] == sorted[j]);
        assert(kept_flags(flags).contains(sorted[j]));
        assert(flags[r[j]]);
    }
    assert forall|a: int, b: int| 0 <= a < b < r.len() implies event_time(events[#[trigger] r[a]].timestamp@, now)
        <= event_time(events[#[trigger] r[b]].timestamp@, now) by {
        assert(r[a] == sorted[a] && r[b] == sorted[b]);
        assert(in_order(keys[sorted[a]], keys[sorted[b]], false));
        assert(kept_flags(flags).contains(sorted[a]) && kept_flags(flags).contains(sorted[b]));
    }
}

/// A query returns only events of its project stamped after the bound (when
/// one reads), newest first.
pub proof fn law_query_in_scope(
    events: Seq<EventRecord>,
    project: Seq<char>,
    since: Option<&str>,
    limit: Option<i64>,
    now: UtcInstant,
)
    ensures
        forall|j: int|
            0 <= j < queried(events, project, since, limit, now).len() ==> {
                let p = #[trigger] queried(events, project, since, limit, now)[j];
                &&& 0 <= p < events.len()
                &&& query_keeps(events[p], project, since_instant(since))
            },
        forall|a: int, b: int|
            0 <= a < b < queried(events, project, since, limit, now).len() ==> event_time(
                events[#[trigger] queried(events, project, since, limit, now)[a]].timestamp@,
                now,
            ) >= event_time(events[#[trigger] queried(events, project, since, limit, now)[b]].timestamp@, now),
{
    let flags = Seq::new(events.len(), |j: int| query_keeps(events[j], project, since_instant(since)));
    let keys = Seq::new(events.len(), |j: int| event_time(events[j].timestamp@, now));
    let sorted = sort_positions(kept_flags(flags), keys, true);
    let r = queried(events, project, since, limit, now);
    law_sort_positions_ordered(kept_flags(flags), keys, true);
    lemma_kept_flags_flagged(flags);
    lemma_cap_is_prefix(sorted, limit);
    assert forall|j: int| 0 <= j < r.len() implies {
        let p = #[trigger] r[j];
        &&& 0 <= p < events.len()
        &&& query_keeps(events[p], project, since_instant(since))
    } by {
        assert(r[j] == sorted[j]);
        assert(kept_flags(flags).contains(sorted[j]));
        assert(flags[r[j]]);
    }
    assert forall|a: int, b: int| 0 <= a < b < r.len() implies event_time(events[#[trigger] r[a]].timestamp@, now)
        >= event_time(events[#[trigger] r[b]].timestamp@, now) by {
        assert(r[a] == sorted[a] && r[b] == sorted[b]);
        assert(in_order(keys[sorted[a]], keys[sorted[b]], true));
        assert(kept_flags(flags).contains(sorted[a]) && kept_flags(flags).contains(sorted[b]));
    }
}

/// Nothing owed is held back: without a limit, replay returns every event
/// of the project that has no delivery record for the agent.
pub proof fn law_replay_complete(
    events: Seq<EventRecord>,
    deliveries: Seq<DeliveryRecord>,
    agent: Seq<char>,
    project: Seq<char>,
    now: UtcInstant,
    i: int,
)
    requires
        0 <= i < events.len(),
        owed(events[i], deliveries, agent, project),
    ensures
        undelivered(events, deliveries, agent, project, None, now).contains(i),
{
    let flags = Seq::new(events.len(), |j: int| owed(events[j], deliveries, agent, project));
    let keys = Seq::new(events.len(), |j: int| event_time(events[j].timestamp@, now));
    lemma_kept_flags_complete(flags);
    assert(flags[i]);
    lemma_sort_positions_complete(kept_flags(flags), keys, false);
}

/// An ingested event is found again: without a bound or a limit, a query of
/// its project returns every event of the project.
pub proof fn law_query_finds_project_events(
    events: Seq<EventRecord>,
    project: Seq<char>,
    now: UtcInstant,
    i: int,
)
    requires
        0 <= i < events.len(),
        events[i].project@ == project,
    ensures
        queried(events, project, None, None, now).contains(i),
{
    let flags = Seq::new(events.len(), |j: int| query_keeps(events[j], project, since_instant(None)));
    let keys = Seq::new(events.len(), |j: int| event_time(events[j].timestamp@, now));
    lemma_kept_flags_complete(flags);
    assert(flags[i]);
    lemma_sort_positions_complete(kept_flags(flags), keys, true);
}

} // verus!
