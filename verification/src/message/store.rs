//! Message bookkeeping: per-recipient sequence numbers, acknowledgements,
//! message ids, and which stored messages a poll returns in which order.
//!
//! The messages live in the graph store; the application reads them and
//! hands here what these decisions read.

use vstd::prelude::*;
use crate::error::EnvoyError;
use crate::metrics::{all_digits, digits_value, is_digit, lemma_digits_value_grows};
use crate::monitor::views;
use crate::text::{chars_of, owned, push_str, str_eq};

verus! {

broadcast use vstd::string::group_string_axioms;

/// Storage kind of messages.
pub const KIND_MESSAGE: &'static str = "EnvoyMessage";

/// Storage kind of the per-recipient sequence counters.
pub const KIND_MSG_SEQ_COUNTER: &'static str = "EnvoyMsgSeqCounter";

/// What a poll reads of a stored message.
#[derive(Debug)]
pub struct MessageRecord {
    pub to: String,
    pub sequence_id: i64,
    pub acked_by: Vec<String>,
}

/// The digits of an integer text, without its sign.
pub open spec fn signless(s: Seq<char>) -> Seq<char> {
    if s.len() > 0 && (s[0] == '+' || s[0] == '-') {
        s.drop_first()
    } else {
        s
    }
}

pub open spec fn is_negative_text(s: Seq<char>) -> bool {
    s.len() > 0 && s[0] == '-'
}

/// Whether `i64::from_str` accepts `s`: a sign, then digits whose value
/// fits.
pub open spec fn parses_as_i64(s: Seq<char>) -> bool {
    &&& signless(s).len() > 0
    &&& all_digits(signless(s))
    &&& if is_negative_text(s) {
        digits_value(signless(s)) <= 0x8000_0000_0000_0000
    } else {
        digits_value(signless(s)) <= 0x7fff_ffff_ffff_ffff
    }
}

/// The value `i64::from_str` reads.
pub open spec fn i64_value(s: Seq<char>) -> int {
    if is_negative_text(s) {
        -digits_value(signless(s))
    } else {
        digits_value(signless(s)) as int
    }
}

/// The next sequence number of a recipient and the counter to store:
/// counting starts at 1, and a counter that holds no number counts as 1.
pub open spec fn sequence_step(stored: Option<Option<i64>>) -> (int, int) {
    match stored {
        Some(Some(n)) => (n as int, n + 1),
        _ => (1, 2),
    }
}

/// The acknowledgements after `x` acknowledges: `x` is added once.
pub open spec fn acked_after(s: Seq<Seq<char>>, x: Seq<char>) -> Seq<Seq<char>> {
    if s.contains(x) {
        s
    } else {
        s.push(x)
    }
}

/// Acknowledging is idempotent: acknowledging again changes nothing, and
/// the acknowledging agent is listed.
pub proof fn law_ack_idempotent(s: Seq<Seq<char>>, x: Seq<char>)
    ensures
        acked_after(acked_after(s, x), x) == acked_after(s, x),
        acked_after(s, x).contains(x),
{
    if !s.contains(x) {
        assert(s.push(x)[s.len() as int] == x);
    }
}

/// Whether a poll by `to` returns a message: addressed to it, newer than
/// `since`, and (unless acknowledged ones are wanted) not acknowledged by it.
pub open spec fn poll_keep(m: MessageRecord, to: Seq<char>, since: i64, include_acked: bool) -> bool {
    m.to@ == to && m.sequence_id > since && (include_acked || !views(m.acked_by@).contains(to))
}

/// Positions of the messages a poll keeps, in stored order.
pub open spec fn kept_positions(msgs: Seq<MessageRecord>, to: Seq<char>, since: i64, include_acked: bool) -> Seq<int>
    decreases msgs.len(),
{
    if msgs.len() == 0 {
        Seq::empty()
    } else {
        let prev = kept_positions(msgs.drop_last(), to, since, include_acked);
        if poll_keep(msgs.last(), to, since, include_acked) {
            prev.push(msgs.len() - 1)
        } else {
            prev
        }
    }
}

/// Where a message of sequence `k` goes in `s`: after every message whose
/// sequence is at most `k`.
pub open spec fn ins_pos(s: Seq<int>, msgs: Seq<MessageRecord>, k: i64) -> int
    decreases s.len(),
{
    if s.len() == 0 {
        0
    } else if msgs[s[0]].sequence_id > k {
        0
    } else {
        1 + ins_pos(s.drop_first(), msgs, k)
    }
}

/// Positions ordered by sequence, equal sequences in their given order (a
/// stable sort).
pub open spec fn by_sequence(ps: Seq<int>, msgs: Seq<MessageRecord>) -> Seq<int>
    decreases ps.len(),
{
    if ps.len() == 0 {
        Seq::empty()
    } else {
        let t = by_sequence(ps.drop_last(), msgs);
        t.insert(ins_pos(t, msgs, msgs[ps.last()].sequence_id), ps.last())
    }
}

/// The most messages a poll with `limit` returns: at most 100; a negative
/// limit sets none.
pub open spec fn poll_cap(limit: i64) -> Option<int> {
    let m = if limit < 100 { limit as int } else { 100 };
    if m < 0 {
        None
    } else {
        Some(m)
    }
}

/// The positions of the messages a poll returns, in order.
pub open spec fn polled(msgs: Seq<MessageRecord>, to: Seq<char>, since: i64, limit: i64, include_acked: bool) -> Seq<int> {
    let s = by_sequence(kept_positions(msgs, to, since, include_acked), msgs);
    match poll_cap(limit) {
        Some(c) => if s.len() > c {
            s.take(c)
        } else {
            s
        },
        None => s,
    }
}

proof fn lemma_ins_pos_bound(s: Seq<int>, msgs: Seq<MessageRecord>, k: i64)
    ensures
        0 <= ins_pos(s, msgs, k) <= s.len(),
    decreases s.len(),
{
    if s.len() > 0 {
        lemma_ins_pos_bound(s.drop_first(), msgs, k);
    }
}

proof fn lemma_by_sequence_len(ps: Seq<int>, msgs: Seq<MessageRecord>)
    ensures
        by_sequence(ps, msgs).len() == ps.len(),
    decreases ps.len(),
{
    if ps.len() > 0 {
        lemma_by_sequence_len(ps.drop_last(), msgs);
        lemma_ins_pos_bound(by_sequence(ps.drop_last(), msgs), msgs, msgs[ps.last()].sequence_id);
    }
}

proof fn lemma_kept_bound(msgs: Seq<MessageRecord>, to: Seq<char>, since: i64, include_acked: bool)
    ensures
        kept_positions(msgs, to, since, include_acked).len() <= msgs.len(),
        forall|j: int| 0 <= j < kept_positions(msgs, to, since, include_acked).len() ==> 0 <= #[trigger] kept_positions(
            msgs,
            to,
            since,
            include_acked,
        )[j] < msgs.len(),
    decreases msgs.len(),
{
    if msgs.len() > 0 {
        lemma_kept_bound(msgs.drop_last(), to, since, include_acked);
    }
}

/// Stateless message store.
pub struct MessageStore;

impl Default for MessageStore {
    fn default() -> Self {
        MessageStore
    }
}

impl MessageStore {
    pub fn new() -> Self {
        MessageStore
    }

    /// The name of the sequence counter of recipient `to`: `msg-seq-{to}`.
    pub fn counter_name(&self, to: &str) -> (r: String)
        ensures
            r@ == "msg-seq-"@ + to@,
    {
        let mut s = owned("msg-seq-");
        push_str(&mut s, to);
        s
    }

    /// The sequence number a new message to a recipient receives, and the
    /// counter value stored in its place, from the counter found (`None`
    /// when there is no counter, `Some(None)` when it holds no number).
    pub fn next_sequence(&self, stored: Option<Option<i64>>) -> (r: (i64, i64))
        requires
            stored matches Some(Some(n)) ==> n < i64::MAX,
        ensures
            (r.0 as int, r.1 as int) == sequence_step(stored),
    {
        match stored {
            Some(Some(n)) => (n, n + 1),
            _ => (1, 2),
        }
    }

    /// A message id as the store numbers messages: `MessageNotFound` when
    /// it is not an `i64`.
    pub fn parse_message_id(&self, message_id: &str) -> (r: Result<i64, EnvoyError>)
        ensures
            parses_as_i64(message_id@) ==> r == Ok::<i64, EnvoyError>(i64_value(message_id@) as i64),
            !parses_as_i64(message_id@) ==> (r matches Err(EnvoyError::MessageNotFound(m)) && m@ == message_id@),
    {
        let cs = chars_of(message_id);
        let neg = cs.len() > 0 && cs[0] == '-';
        let start: usize = if cs.len() > 0 && (cs[0] == '+' || cs[0] == '-') { 1 } else { 0 };
        let ghost d = signless(cs@);
        assert(d =~= cs@.skip(start as int));
        if start >= cs.len() {
            return Err(EnvoyError::MessageNotFound(owned(message_id)));
        }
        let bound: u64 = if neg { 0x8000_0000_0000_0000 } else { 0x7fff_ffff_ffff_ffff };
        let mut value: u64 = 0;
        let mut i: usize = start;
        while i < cs.len()
            invariant
                cs@ == message_id@,
                start <= i <= cs@.len(),
                d == cs@.skip(start as int),
                d == signless(cs@),
                d.len() > 0,
                neg == is_negative_text(cs@),
                bound == if neg { 0x8000_0000_0000_0000u64 } else { 0x7fff_ffff_ffff_ffffu64 },
                forall|j: int| 0 <= j < i - start ==> is_digit(#[trigger] d[j]),
                value == digits_value(d.take(i - start)),
                value <= bound,
            decreases cs@.len() - i,
        {
            let c = cs[i];
            assert(d[i - start] == c);
            if !('0' <= c && c <= '9') {
                assert(!is_digit(d[i - start]));
                assert(!all_digits(d));
                return Err(EnvoyError::MessageNotFound(owned(message_id)));
            }
            let digit = (c as u32 - 48) as u64;
            assert(d.take(i - start + 1).drop_last() =~= d.take(i - start));
            assert(d.take(i - start + 1).last() == c);
            assert(digits_value(d.take(i - start + 1)) == value * 10 + digit);
            if value > (bound - digit) / 10 {
                proof {
                    assert(value * 10 + digit > bound) by (nonlinear_arith)
                        requires value > (bound - digit) / 10, digit <= 9, bound >= 9;
                    lemma_digits_value_grows(d, i - start + 1);
                }
                return Err(EnvoyError::MessageNotFound(owned(message_id)));
            }
            assert(value * 10 + digit <= bound) by (nonlinear_arith)
                requires value <= (bound - digit) / 10, digit <= 9, bound >= 9;
            value = value * 10 + digit;
            i += 1;
        }
        assert(d.take(i - start) =~= d);
        if neg {
            if value == 0x8000_0000_0000_0000 {
                Ok(i64::MIN)
            } else {
                Ok(-(value as i64))
            }
        } else {
            Ok(value as i64)
        }
    }

    /// The acknowledgements of a message after `agent_id` acknowledges it:
    /// the agent is added once.
    pub fn ack_list(&self, acked: Vec<String>, agent_id: &str) -> (r: Vec<String>)
        ensures
            views(r@) == acked_after(views(acked@), agent_id@),
    {
        let mut acked = acked;
        let mut found = false;
        let mut i: usize = 0;
        while i < acked.len()
            invariant
                i <= acked@.len(),
                found == exists|j: int| 0 <= j < i && views(acked@)[j] == agent_id@,
            decreases acked@.len() - i,
        {
            assert(views(acked@)[i as int] == acked@[i as int]@);
            if str_eq(acked[i].as_str(), agent_id) {
                found = true;
            }
            i += 1;
        }
        let ghost before = views(acked@);
        if !found {
            let a = owned(agent_id);
            proof {
                assert(views(acked@.push(a)) =~= views(acked@).push(a@));
            }
            acked.push(a);
        }
        acked
    }

    fn acked_by_recipient(&self, m: &MessageRecord, to: &str) -> (r: bool)
        ensures
            r == views(m.acked_by@).contains(to@),
    {
        let mut i: usize = 0;
        while i < m.acked_by.len()
            invariant
                i <= m.acked_by@.len(),
                forall|j: int| 0 <= j < i ==> views(m.acked_by@)[j] != to@,
            decreases m.acked_by@.len() - i,
        {
            assert(views(m.acked_by@)[i as int] == m.acked_by@[i as int]@);
            if str_eq(m.acked_by[i].as_str(), to) {
                return true;
            }
            i += 1;
        }
        false
    }

    /// The positions of the messages a poll by `to` returns, in the order
    /// returned: those kept, by sequence (equal sequences in stored order),
    /// at most `limit` and at most 100 of them (a negative limit sets no
    /// bound).
    pub fn poll_order(&self, msgs: &Vec<MessageRecord>, to: &str, since: i64, limit: i64, include_acked: bool) -> (r: Vec<
        usize,
    >)
        ensures
            r@.map_values(|p: usize| p as int) == polled(msgs@, to@, since, limit, include_acked),
    {
        let ghost ms = msgs@;
        let mut out: Vec<usize> = Vec::new();
        let mut i: usize = 0;
        while i < msgs.len()
            invariant
                ms == msgs@,
                i <= ms.len(),
                out@.map_values(|p: usize| p as int) == by_sequence(kept_positions(ms.take(i as int), to@, since, include_acked), ms),
                forall|j: int| 0 <= j < out@.len() ==> #[trigger] out@[j] < i,
            decreases ms.len() - i,
        {
            let ghost prev = kept_positions(ms.take(i as int), to@, since, include_acked);
            proof {
                assert(ms.take(i as int + 1).drop_last() =~= ms.take(i as int));
                assert(ms.take(i as int + 1).last() == ms[i as int]);
            }
            let m = &msgs[i];
            let keep = str_eq(m.to.as_str(), to) && m.sequence_id > since && (include_acked || !self.acked_by_recipient(m, to));
            if keep {
                let ghost t = out@.map_values(|p: usize| p as int);
                let k = m.sequence_id;
                let mut p: usize = 0;
                proof {
                    assert(t.skip(0) =~= t);
                }
                while p < out.len() && msgs[out[p]].sequence_id <= k
                    invariant
                        ms == msgs@,
                        t == out@.map_values(|q: usize| q as int),
                        p <= out@.len(),
                        forall|j: int| 0 <= j < out@.len() ==> #[trigger] out@[j] < i,
                        i < ms.len(),
                        ins_pos(t, ms, k) == p + ins_pos(t.skip(p as int), ms, k),
                    decreases out@.len() - p,
                {
                    assert(t.skip(p as int).drop_first() =~= t.skip(p as int + 1));
                    assert(t.skip(p as int)[0] == out@[p as int] as int);
                    p += 1;
                }
                proof {
                    if p < out@.len() {
                        assert(t.skip(p as int)[0] == out@[p as int] as int);
                    }
                    assert(ins_pos(t, ms, k) == p);
                }
                out.insert(p, i);
                proof {
                    assert(out@.map_values(|q: usize| q as int) =~= t.insert(p as int, i as int));
                    assert(kept_positions(ms.take(i as int + 1), to@, since, include_acked) == prev.push(i as int));
                    assert(prev.push(i as int).drop_last() =~= prev);
                    assert forall|j: int| 0 <= j < out@.len() implies #[trigger] out@[j] < i + 1 by {
                        if j < p {
                            assert(out@[j] == t[j]);
                        } else if j > p {
                            assert(out@[j] == t[j - 1]);
                        }
                    }
                }
            } else {
                proof {
                    assert(!poll_keep(ms[i as int], to@, since, include_acked));
                }
            }
            i += 1;
        }
        proof {
            assert(ms.take(ms.len() as int) =~= ms);
            lemma_by_sequence_len(kept_positions(ms, to@, since, include_acked), ms);
        }
        let cap: i64 = if limit < 100 { limit } else { 100 };
        if cap >= 0 && (cap as u64) < (out.len() as u64) {
            let c = cap as usize;
            out.truncate(c);
            proof {
                assert(out@.map_values(|q: usize| q as int) =~= polled(ms, to@, since, limit, include_acked));
            }
        }
        out
    }
}

/// Where a message goes in a list ordered by sequence: after those of
/// sequence at most `k`, before the rest.
proof fn lemma_ins_pos_splits(t: Seq<int>, msgs: Seq<MessageRecord>, k: i64)
    requires
        forall|a: int, b: int| 0 <= a < b < t.len() ==> msgs[#[trigger] t[a]].sequence_id <= msgs[#[trigger] t[b]].sequence_id,
    ensures
        0 <= ins_pos(t, msgs, k) <= t.len(),
        forall|j: int| 0 <= j < ins_pos(t, msgs, k) ==> msgs[#[trigger] t[j]].sequence_id <= k,
        forall|j: int| ins_pos(t, msgs, k) <= j < t.len() ==> msgs[#[trigger] t[j]].sequence_id > k,
    decreases t.len(),
{
    if t.len() > 0 {
        let u = t.drop_first();
        assert forall|a: int, b: int| 0 <= a < b < u.len() implies msgs[#[trigger] u[a]].sequence_id <= msgs[#[trigger] u[b]].sequence_id by {
            assert(u[a] == t[a + 1] && u[b] == t[b + 1]);
        }
        lemma_ins_pos_splits(u, msgs, k);
        if msgs[t[0]].sequence_id > k {
            assert forall|j: int| 0 <= j < t.len() implies msgs[#[trigger] t[j]].sequence_id > k by {
                if j > 0 {
                    assert(msgs[t[0]].sequence_id <= msgs[t[j]].sequence_id);
                }
            }
        } else {
            assert forall|j: int| 0 <= j < ins_pos(t, msgs, k) implies msgs[#[trigger] t[j]].sequence_id <= k by {
                if j > 0 {
                    assert(t[j] == u[j - 1]);
                }
            }
            assert forall|j: int| ins_pos(t, msgs, k) <= j < t.len() implies msgs[#[trigger] t[j]].sequence_id > k by {
                assert(t[j] == u[j - 1]);
            }
        }
    }
}

/// Ordering by sequence keeps the positions it is given and puts them in
/// ascending sequence.
proof fn lemma_by_sequence_sorted(ps: Seq<int>, msgs: Seq<MessageRecord>)
    ensures
        by_sequence(ps, msgs).len() == ps.len(),
        forall|a: int, b: int|
            0 <= a < b < by_sequence(ps, msgs).len() ==> msgs[#[trigger] by_sequence(ps, msgs)[a]].sequence_id
                <= msgs[#[trigger] by_sequence(ps, msgs)[b]].sequence_id,
        forall|j: int| 0 <= j < by_sequence(ps, msgs).len() ==> ps.contains(#[trigger] by_sequence(ps, msgs)[j]),
    decreases ps.len(),
{
    if ps.len() > 0 {
        let t = by_sequence(ps.drop_last(), msgs);
        let x = ps.last();
        let k = msgs[x].sequence_id;
        lemma_by_sequence_sorted(ps.drop_last(), msgs);
        lemma_ins_pos_splits(t, msgs, k);
        let p = ins_pos(t, msgs, k);
        let r = t.insert(p, x);
        assert(r == by_sequence(ps, msgs));
        assert forall|a: int, b: int| 0 <= a < b < r.len() implies msgs[#[trigger] r[a]].sequence_id <= msgs[#[trigger] r[b]].sequence_id by {
            if b < p {
            } else if b == p {
                assert(r[a] == t[a]);
            } else if a < p {
                assert(r[b] == t[b - 1]);
            } else if a == p {
                assert(r[b] == t[b - 1]);
            } else {
                assert(r[a] == t[a - 1] && r[b] == t[b - 1]);
            }
        }
        assert forall|j: int| 0 <= j < r.len() implies ps.contains(#[trigger] r[j]) by {
            if j < p {
                assert(ps.drop_last().contains(t[j]));
                let i = choose|i: int| 0 <= i < ps.drop_last().len() && ps.drop_last()[i] == t[j];
                assert(ps[i] == t[j]);
            } else if j == p {
                assert(ps[ps.len() - 1] == x);
            } else {
                assert(ps.drop_last().contains(t[j - 1]));
                let i = choose|i: int| 0 <= i < ps.drop_last().len() && ps.drop_last()[i] == t[j - 1];
                assert(ps[i] == t[j - 1]);
            }
        }
    }
}

proof fn lemma_kept_keep(msgs: Seq<MessageRecord>, to: Seq<char>, since: i64, include_acked: bool, e: int)
    requires
        kept_positions(msgs, to, since, include_acked).contains(e),
    ensures
        0 <= e < msgs.len(),
        poll_keep(msgs[e], to, since, include_acked),
    decreases msgs.len(),
{
    if msgs.len() > 0 {
        let prev = kept_positions(msgs.drop_last(), to, since, include_acked);
        if prev.contains(e) {
            lemma_kept_keep(msgs.drop_last(), to, since, include_acked, e);
        } else {
            let i = choose|i: int| 0 <= i < kept_positions(msgs, to, since, include_acked).len() && kept_positions(
                msgs,
                to,
                since,
                include_acked,
            )[i] == e;
            if poll_keep(msgs.last(), to, since, include_acked) {
                if i < prev.len() {
                    assert(prev[i] == e);
                }
            }
        }
    }
}

/// A poll returns only messages addressed to the poller that are newer than
/// `since` (and, unless asked for, not yet acknowledged by it), in
/// ascending sequence, and never more than 100.
pub proof fn law_poll_ordered(msgs: Seq<MessageRecord>, to: Seq<char>, since: i64, limit: i64, include_acked: bool)
    ensures
        forall|j: int| 0 <= j < polled(msgs, to, since, limit, include_acked).len() ==> 0 <= #[trigger] polled(
            msgs,
            to,
            since,
            limit,
            include_acked,
        )[j] < msgs.len() && poll_keep(msgs[polled(msgs, to, since, limit, include_acked)[j]], to, since, include_acked),
        forall|a: int, b: int|
            0 <= a < b < polled(msgs, to, since, limit, include_acked).len() ==> msgs[#[trigger] polled(
                msgs,
                to,
                since,
                limit,
                include_acked,
            )[a]].sequence_id <= msgs[#[trigger] polled(msgs, to, since, limit, include_acked)[b]].sequence_id,
        limit >= 0 ==> polled(msgs, to, since, limit, include_acked).len() <= limit && polled(
            msgs,
            to,
            since,
            limit,
            include_acked,
        ).len() <= 100,
{
    let ps = kept_positions(msgs, to, since, include_acked);
    let s = by_sequence(ps, msgs);
    lemma_by_sequence_sorted(ps, msgs);
    let r = polled(msgs, to, since, limit, include_acked);
    assert forall|j: int| 0 <= j < r.len() implies 0 <= #[trigger] r[j] < msgs.len() && poll_keep(msgs[r[j]], to, since, include_acked) by {
        assert(r[j] == s[j]);
        assert(ps.contains(s[j]));
        lemma_kept_keep(msgs, to, since, include_acked, s[j]);
    }
    assert forall|a: int, b: int| 0 <= a < b < r.len() implies msgs[#[trigger] r[a]].sequence_id <= msgs[#[trigger] r[b]].sequence_id by {
        assert(r[a] == s[a] && r[b] == s[b]);
    }
}

/// Every message a poll keeps is among the kept positions.
proof fn lemma_kept_complete(msgs: Seq<MessageRecord>, to: Seq<char>, since: i64, include_acked: bool, i: int)
    requires
        0 <= i < msgs.len(),
        poll_keep(msgs[i], to, since, include_acked),
    ensures
        kept_positions(msgs, to, since, include_acked).contains(i),
    decreases msgs.len(),
{
    let prev = kept_positions(msgs.drop_last(), to, since, include_acked);
    if i == msgs.len() - 1 {
        assert(prev.push(i)[prev.len() as int] == i);
    } else {
        assert(msgs.drop_last()[i] == msgs[i]);
        lemma_kept_complete(msgs.drop_last(), to, since, include_acked, i);
        let k = choose|k: int| 0 <= k < prev.len() && #[trigger] prev[k] == i;
        if poll_keep(msgs.last(), to, since, include_acked) {
            assert(prev.push(msgs.len() - 1)[k] == i);
        }
    }
}

/// Ordering by sequence loses no position.
proof fn lemma_by_sequence_complete(ps: Seq<int>, msgs: Seq<MessageRecord>, x: int)
    requires
        ps.contains(x),
    ensures
        by_sequence(ps, msgs).contains(x),
    decreases ps.len(),
{
    let d = ps.drop_last();
    let t = by_sequence(d, msgs);
    let x0 = ps.last();
    lemma_ins_pos_bound(t, msgs, msgs[x0].sequence_id);
    let p = ins_pos(t, msgs, msgs[x0].sequence_id);
    let r = t.insert(p, x0);
    assert(r == by_sequence(ps, msgs));
    let i = choose|i: int| 0 <= i < ps.len() && #[trigger] ps[i] == x;
    if i == ps.len() - 1 {
        assert(r[p] == x0);
    } else {
        assert(d[i] == x);
        lemma_by_sequence_complete(d, msgs, x);
        let k = choose|k: int| 0 <= k < t.len() && #[trigger] t[k] == x;
        if k < p {
            assert(r[k] == x);
        } else {
            assert(r[k + 1] == x);
        }
    }
}

/// What was written is read back: a poll returns every message it keeps
/// (addressed to the poller, newer than `since`, and unless asked for not
/// yet acknowledged) whenever no more of them are kept than the poll may
/// return.
pub proof fn law_poll_returns_kept(
    msgs: Seq<MessageRecord>,
    to: Seq<char>,
    since: i64,
    limit: i64,
    include_acked: bool,
    i: int,
)
    requires
        0 <= i < msgs.len(),
        poll_keep(msgs[i], to, since, include_acked),
        poll_cap(limit) matches Some(c) ==> kept_positions(msgs, to, since, include_acked).len() <= c,
    ensures
        polled(msgs, to, since, limit, include_acked).contains(i),
{
    let ps = kept_positions(msgs, to, since, include_acked);
    lemma_kept_complete(msgs, to, since, include_acked, i);
    lemma_by_sequence_complete(ps, msgs, i);
    lemma_by_sequence_len(ps, msgs);
}

} // verus!
