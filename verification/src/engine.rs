//! Channels, sequenced events and subscriptions of the coordination engine.
//!
//! The engine stores channels, channel events, per-channel sequence
//! counters and subscriptions as entities of the graph store; the
//! application reads and writes them. The library decides the names the
//! records are stored under, the sequence numbers events receive, where a
//! new subscription starts, and which events a replay or catch-up returns.

use vstd::prelude::*;
use crate::error::EnvoyError;
use crate::message::store::sequence_step;
use crate::nudge::{push_signed, signed_decimal};
use crate::order::{
    cap_by_limit, in_order, int_keys, int_positions, kept_flags, law_sort_positions_ordered, lemma_cap_is_prefix,
    lemma_kept_flags_complete, lemma_kept_flags_flagged, lemma_sort_positions_complete, ordered_positions, sort_positions,
};
use crate::text::{owned, push_str, str_eq};

verus! {

pub const KIND_CHANNEL: &'static str = "EnvoyChannel";
pub const KIND_EVENT: &'static str = "EnvoyEvent";
pub const KIND_SUBSCRIPTION: &'static str = "EnvoySubscription";
pub const KIND_SEQ_COUNTER: &'static str = "EnvoySeqCounter";
pub const EDGE_POSTED_IN: &'static str = "POSTED_IN";
pub const EDGE_SUBSCRIBES_TO: &'static str = "SUBSCRIBES_TO";

/// What a replay reads of a stored channel event.
#[derive(Debug, Clone, Copy)]
pub struct ChannelEventRecord {
    pub id: i64,
    pub channel_id: i64,
    pub sequence_id: i64,
}

/// What a subscription listing reads of a stored subscription.
#[derive(Debug, Clone)]
pub struct SubscriptionRecord {
    pub agent_id: String,
    pub channel_id: i64,
}

/// The highest sequence assigned on a channel, from its counter (`None`
/// without a counter, `Some(None)` when it holds no number).
pub open spec fn max_of_counter(stored: Option<Option<i64>>) -> int {
    match stored {
        Some(Some(n)) => n - 1,
        Some(None) => 0,
        None => 0,
    }
}

/// Whether a replay of `channel_id` after `since` returns the event.
pub open spec fn replay_keeps(e: ChannelEventRecord, channel_id: i64, since: i64) -> bool {
    e.channel_id == channel_id && e.sequence_id > since
}

/// The positions of the events a replay returns, by sequence (equal
/// sequences in stored order), cut to `limit`.
pub open spec fn replayed(events: Seq<ChannelEventRecord>, channel_id: i64, since: i64, limit: Option<i64>) -> Seq<int> {
    cap_by_limit(
        sort_positions(
            kept_flags(Seq::new(events.len(), |j: int| replay_keeps(events[j], channel_id, since))),
            Seq::new(events.len(), |j: int| events[j].sequence_id as int),
            false,
        ),
        limit,
    )
}

/// Where a subscription stands after a catch-up returned `r`: the sequence
/// of the last event returned, or unchanged when none was.
pub open spec fn caught_up_mark(events: Seq<ChannelEventRecord>, r: Seq<int>, since: i64) -> int {
    if r.len() == 0 {
        since as int
    } else {
        events[r.last()].sequence_id as int
    }
}

/// Whether a listing for `agent` shows the subscription: it is the agent's
/// and its channel still exists.
pub open spec fn listed(s: SubscriptionRecord, agent: Seq<char>, channels: Seq<i64>) -> bool {
    s.agent_id@ == agent && channels.contains(s.channel_id)
}

/// The decisions of the coordination engine over its stored records.
pub struct Engine;

impl Engine {
    pub fn new() -> Self {
        Engine
    }

    /// The store name of `agent_id`'s subscription to a channel:
    /// `sub-{agent}-{channel}`.
    pub fn sub_entity_name(&self, agent_id: &str, channel_id: i64) -> (r: String)
        ensures
            r@ == "sub-"@ + agent_id@ + "-"@ + signed_decimal(channel_id as int),
    {
        let mut s = owned("sub-");
        push_str(&mut s, agent_id);
        push_str(&mut s, "-");
        push_signed(&mut s, channel_id);
        s
    }

    /// The store name of a channel's sequence counter: `seq-{channel}`.
    pub fn seq_counter_name(&self, channel_id: i64) -> (r: String)
        ensures
            r@ == "seq-"@ + signed_decimal(channel_id as int),
    {
        let mut s = owned("seq-");
        push_signed(&mut s, channel_id);
        s
    }

    /// The store name of a published event: `event-{channel}-{sequence}`.
    pub fn event_entity_name(&self, channel_id: i64, sequence_id: i64) -> (r: String)
        ensures
            r@ == "event-"@ + signed_decimal(channel_id as int) + "-"@ + signed_decimal(sequence_id as int),
    {
        let mut s = owned("event-");
        push_signed(&mut s, channel_id);
        push_str(&mut s, "-");
        push_signed(&mut s, sequence_id);
        s
    }

    /// A channel may be created only under a new name.
    pub fn check_new_channel(&self, name: &str, exists: bool) -> (r: Result<(), EnvoyError>)
        ensures
            !exists ==> r is Ok,
            exists ==> (r matches Err(EnvoyError::ChannelAlreadyExists(n)) && n@ == name@),
    {
        if exists {
            Err(EnvoyError::ChannelAlreadyExists(owned(name)))
        } else {
            Ok(())
        }
    }

    /// The sequence number the next event on a channel receives, and the
    /// counter value stored in its place.
    pub fn next_sequence_id(&self, stored: Option<Option<i64>>) -> (r: (i64, i64))
        requires
            stored matches Some(Some(n)) ==> n < i64::MAX,
        ensures
            (r.0 as int, r.1 as int) == sequence_step(stored),
    {
        match stored {
            Some(Some(n)) => (n, n + 1),
            _ => (1, 2),
        }
    }

    /// The highest sequence assigned so far: where a new subscription starts.
    pub fn max_sequence_id(&self, stored: Option<Option<i64>>) -> (r: i64)
        requires
            stored matches Some(Some(n)) ==> n > i64::MIN,
        ensures
            r == max_of_counter(stored),
    {
        match stored {
            Some(Some(n)) => n - 1,
            _ => 0,
        }
    }

    /// The positions of the events a replay of `channel_id` after `since`
    /// returns, by sequence, at most `limit` of them.
    pub fn replay_order(
        &self,
        events: &Vec<ChannelEventRecord>,
        channel_id: i64,
        since: i64,
        limit: Option<i64>,
    ) -> (r: Vec<usize>)
        ensures
            int_positions(r@) == replayed(events@, channel_id, since, limit),
    {
        let mut keys: Vec<i128> = Vec::new();
        let mut keep: Vec<bool> = Vec::new();
        let mut i: usize = 0;
        while i < events.len()
            invariant
                i <= events@.len(),
                keys@.len() == i,
                keep@.len() == i,
                forall|j: int| 0 <= j < i ==> #[trigger] keys@[j] as int == events@[j].sequence_id as int,
                forall|j: int| 0 <= j < i ==> #[trigger] keep@[j] == replay_keeps(events@[j], channel_id, since),
            decreases events@.len() - i,
        {
            let e = events[i];
            keys.push(e.sequence_id as i128);
            keep.push(e.channel_id == channel_id && e.sequence_id > since);
            i += 1;
        }
        proof {
            assert(int_keys(keys@) =~= Seq::new(events@.len(), |j: int| events@[j].sequence_id as int));
            assert(keep@ =~= Seq::new(events@.len(), |j: int| replay_keeps(events@[j], channel_id, since)));
        }
        ordered_positions(&keys, &keep, false, limit)
    }

    /// A catch-up from `last_seen`: every event after it, by sequence, and
    /// the sequence the subscription stands at afterwards.
    pub fn catch_up_order(&self, events: &Vec<ChannelEventRecord>, channel_id: i64, last_seen: i64) -> (r: (
        Vec<usize>,
        i64,
    ))
        ensures
            int_positions(r.0@) == replayed(events@, channel_id, last_seen, None),
            r.1 as int == caught_up_mark(events@, replayed(events@, channel_id, last_seen, None), last_seen),
    {
        let order = self.replay_order(events, channel_id, last_seen, None);
        let ghost rp = replayed(events@, channel_id, last_seen, None);
        proof {
            assert(int_positions(order@).len() == order@.len());
            if order@.len() > 0 {
                assert(int_positions(order@)[order@.len() - 1] == order@[order@.len() - 1] as int);
                lemma_replayed_in_range(events@, channel_id, last_seen, None);
                assert(0 <= rp[rp.len() - 1] < events@.len());
            }
        }
        let mark = if order.len() == 0 {
            last_seen
        } else {
            events[order[order.len() - 1]].sequence_id
        };
        (order, mark)
    }

    /// The positions of the subscriptions an agent's listing shows: its own,
    /// on channels that still exist, in stored order.
    pub fn subscription_positions(
        &self,
        subs: &Vec<SubscriptionRecord>,
        agent_id: &str,
        channel_ids: &Vec<i64>,
    ) -> (r: Vec<usize>)
        ensures
            int_positions(r@) == kept_flags(Seq::new(subs@.len(), |j: int| listed(subs@[j], agent_id@, channel_ids@))),
    {
        let ghost flags = Seq::new(subs@.len(), |j: int| listed(subs@[j], agent_id@, channel_ids@));
        let mut out: Vec<usize> = Vec::new();
        let mut i: usize = 0;
        proof {
            assert(flags.take(0) =~= Seq::<bool>::empty());
            assert(int_positions(out@) =~= Seq::<int>::empty());
        }
        while i < subs.len()
            invariant
                flags == Seq::new(subs@.len(), |j: int| listed(subs@[j], agent_id@, channel_ids@)),
                i <= subs@.len(),
                int_positions(out@) == kept_flags(flags.take(i as int)),
            decreases subs@.len() - i,
        {
            proof {
                assert(flags.take(i as int + 1).drop_last() =~= flags.take(i as int));
                assert(flags.take(i as int + 1).last() == flags[i as int]);
            }
            let s = &subs[i];
            let mut found = false;
            let mut k: usize = 0;
            while k < channel_ids.len()
                invariant
                    k <= channel_ids@.len(),
                    found == exists|m: int| 0 <= m < k && #[trigger] channel_ids@[m] == s.channel_id,
                decreases channel_ids@.len() - k,
            {
                if channel_ids[k] == s.channel_id {
                    found = true;
                }
                k += 1;
            }
            if str_eq(s.agent_id.as_str(), agent_id) && found {
                let ghost before = out@;
                out.push(i);
                assert(int_positions(out@) =~= int_positions(before).push(i as int));
            }
            i += 1;
        }
        assert(flags.take(subs@.len() as int) =~= flags);
        out
    }
}

/// Every position a replay returns is an event of the store.
pub proof fn lemma_replayed_in_range(events: Seq<ChannelEventRecord>, channel_id: i64, since: i64, limit: Option<i64>)
    ensures
        forall|j: int|
            0 <= j < replayed(events, channel_id, since, limit).len() ==> 0 <= #[trigger] replayed(
                events,
                channel_id,
                since,
                limit,
            )[j] < events.len(),
{
    let flags = Seq::new(events.len(), |j: int| replay_keeps(events[j], channel_id, since));
    let keys = Seq::new(events.len(), |j: int| events[j].sequence_id as int);
    let sorted = sort_positions(kept_flags(flags), keys, false);
    law_sort_positions_ordered(kept_flags(flags), keys, false);
    lemma_kept_flags_flagged(flags);
    lemma_cap_is_prefix(sorted, limit);
    assert forall|j: int| 0 <= j < replayed(events, channel_id, since, limit).len() implies 0
        <= #[trigger] replayed(events, channel_id, since, limit)[j] < events.len() by {
        assert(kept_flags(flags).contains(sorted[j]));
    }
}

/// A catch-up leaves nothing behind: replaying again from where the
/// catch-up left the subscription returns no event, until something new is
/// published.
pub proof fn law_catch_up_drains(events: Seq<ChannelEventRecord>, channel_id: i64, since: i64)
    ensures
        caught_up_mark(events, replayed(events, channel_id, since, None), since) >= since,
        replayed(
            events,
            channel_id,
            caught_up_mark(events, replayed(events, channel_id, since, None), since) as i64,
            None,
        ).len() == 0,
{
    let r1 = replayed(events, channel_id, since, None);
    let keys = Seq::new(events.len(), |j: int| events[j].sequence_id as int);
    let f1 = Seq::new(events.len(), |j: int| replay_keeps(events[j], channel_id, since));
    law_sort_positions_ordered(kept_flags(f1), keys, false);
    lemma_kept_flags_flagged(f1);
    lemma_kept_flags_complete(f1);
    lemma_sort_positions_complete(kept_flags(f1), keys, false);
    assert(r1 == sort_positions(kept_flags(f1), keys, false));
    let m = caught_up_mark(events, r1, since);
    if r1.len() > 0 {
        assert(kept_flags(f1).contains(r1[r1.len() - 1]));
        assert(f1[r1[r1.len() - 1]]);
    }
    let mi = m as i64;
    let f2 = Seq::new(events.len(), |j: int| replay_keeps(events[j], channel_id, mi));
    lemma_kept_flags_flagged(f2);
    if kept_flags(f2).len() > 0 {
        let x = kept_flags(f2)[0];
        assert(kept_flags(f2).contains(x));
        assert(f2[x]);
        assert(f1[x]);
        assert(kept_flags(f1).contains(x));
        assert(r1.contains(x));
        let a = choose|a: int| 0 <= a < r1.len() && #[trigger] r1[a] == x;
        if a < r1.len() - 1 {
            assert(in_order(keys[r1[a]], keys[r1[r1.len() - 1]], false));
        }
        assert(false);
    }
    assert(kept_flags(f2) =~= Seq::<int>::empty());
}

/// Sequence numbers count up by one: after a publish the channel's highest
/// sequence is the one just assigned, so a new subscription starts there,
/// and the next publish receives the number after it.
pub proof fn law_sequence_counts_up(stored: Option<Option<i64>>)
    requires
        stored matches Some(Some(n)) ==> n < i64::MAX,
    ensures
        max_of_counter(Some(Some(sequence_step(stored).1 as i64))) == sequence_step(stored).0,
        sequence_step(Some(Some(sequence_step(stored).1 as i64))).0 == sequence_step(stored).0 + 1,
        max_of_counter(stored) < sequence_step(stored).0,
{
}

} // verus!
