//! Agent registry with a parent/child hierarchy.
//!
//! Every registration creates a fresh agent with a server-assigned ID: root
//! agents get `id1`, `id2`, … from a counter, a sub-agent of `P` gets `P.n`
//! from a counter kept for `P`. Counters only grow, so an ID is never handed
//! out twice, not even after a purge. Retiring an agent retires all of its
//! descendants. Agents loaded from storage start retired and come back with a
//! heartbeat. Storage itself is the application's business: it hands the
//! loaded records to `new` and persists what `register`, `retire` and
//! `heartbeat` return.

use vstd::prelude::*;
use crate::assoc::{StrMap, distinct_keys, key_set};
use crate::error::EnvoyError;
use crate::status::{AgentStatusSnapshot, clone_opt};
use crate::text::{chars_of, decimal, decimal_value, lemma_decimal_digits, lemma_decimal_injective, lemma_decimal_len, owned, push_decimal, push_str, str_eq, string_of, take_chars};
use crate::time::{UtcInstant, utc_now, now_rfc3339, format_rfc3339, parse_rfc3339, rfc3339_text, rfc3339_instant, whole_seconds_between, seconds_between, div_toward_zero};

verus! {

#[derive(Debug, Clone, Copy, PartialEq, Eq, Structural)]
pub enum AgentLifecycle {
    Active,
    Retired,
}

#[derive(Debug)]
pub struct AgentInfo {
    pub agent_id: String,
    pub name: String,
    pub kind: String,
    pub parent_id: Option<String>,
    pub lifecycle: AgentLifecycle,
    pub status: Option<AgentStatusSnapshot>,
    pub last_heartbeat_at: Option<String>,
}

impl Clone for AgentInfo {
    fn clone(&self) -> (r: Self)
        ensures
            r == *self,
    {
        AgentInfo {
            agent_id: self.agent_id.clone(),
            name: self.name.clone(),
            kind: self.kind.clone(),
            parent_id: clone_opt(&self.parent_id),
            lifecycle: self.lifecycle,
            status: match &self.status {
                Some(s) => Some(s.clone()),
                None => None,
            },
            last_heartbeat_at: clone_opt(&self.last_heartbeat_at),
        }
    }
}

impl AgentInfo {
    /// The same agent, retired.
    pub open spec fn retired(self) -> AgentInfo {
        AgentInfo { lifecycle: AgentLifecycle::Retired, ..self }
    }
}

/// The children listed for `id` (none when it has no list).
pub open spec fn kids_of(ch: Map<Seq<char>, Seq<Seq<char>>>, id: Seq<char>) -> Seq<Seq<char>> {
    if ch.contains_key(id) {
        ch[id]
    } else {
        Seq::empty()
    }
}

/// The order in which retiring `id` visits agents: `id` first, then the
/// subtree of each child, the last-listed child first. `fuel` bounds the
/// depth.
pub open spec fn visit_order(ch: Map<Seq<char>, Seq<Seq<char>>>, id: Seq<char>, fuel: nat) -> Seq<Seq<char>>
    decreases fuel, 0nat,
{
    if fuel == 0 {
        seq![id]
    } else {
        seq![id] + visit_kids(ch, kids_of(ch, id), (fuel - 1) as nat)
    }
}

pub open spec fn visit_kids(ch: Map<Seq<char>, Seq<Seq<char>>>, kids: Seq<Seq<char>>, fuel: nat) -> Seq<Seq<char>>
    decreases fuel, kids.len(),
{
    if kids.len() == 0 {
        Seq::empty()
    } else {
        visit_order(ch, kids.last(), fuel) + visit_kids(ch, kids.drop_last(), fuel)
    }
}

/// The ID a root agent gets from counter value `n`.
pub open spec fn root_id(n: nat) -> Seq<char> {
    "id"@ + decimal(n)
}

/// The ID the `n`-th child of `parent` gets.
pub open spec fn child_id(parent: Seq<char>, n: nat) -> Seq<char> {
    parent + "."@ + decimal(n)
}

/// A freshly registered, active agent.
pub open spec fn fresh_agent(info: AgentInfo, id: Seq<char>, name: Seq<char>, kind: Seq<char>, parent: Option<String>) -> bool {
    &&& info.agent_id@ == id
    &&& info.name@ == name
    &&& info.kind@ == kind
    &&& info.parent_id == parent
    &&& info.lifecycle == AgentLifecycle::Active
    &&& info.status is None
    &&& info.last_heartbeat_at is None
}

/// Agents loaded from storage: each record retired, later records replacing
/// earlier ones with the same ID.
pub open spec fn loaded_agents(recs: Seq<AgentInfo>) -> Map<Seq<char>, AgentInfo>
    decreases recs.len(),
{
    if recs.len() == 0 {
        Map::empty()
    } else {
        loaded_agents(recs.drop_last()).insert(recs.last().agent_id@, recs.last().retired())
    }
}

/// Children lists built from loaded records: each record with a parent
/// joins its parent's list, in record order.
pub open spec fn loaded_children(recs: Seq<AgentInfo>) -> Map<Seq<char>, Seq<Seq<char>>>
    decreases recs.len(),
{
    if recs.len() == 0 {
        Map::empty()
    } else {
        let prev = loaded_children(recs.drop_last());
        match recs.last().parent_id {
            Some(p) => prev.insert(p@, kids_of(prev, p@).push(recs.last().agent_id@)),
            None => prev,
        }
    }
}

/// A record's ID is longer than its parent's ID, as every ID the registry
/// hands out is.
pub open spec fn longer_than_parent(info: AgentInfo) -> bool {
    info.parent_id matches Some(p) ==> info.agent_id@.len() > p@.len()
}

/// Every child ID is longer than its parent's ID.
pub open spec fn ids_grow(ch: Map<Seq<char>, Seq<Seq<char>>>) -> bool {
    forall|p: Seq<char>, i: int| #![trigger ch[p][i]]
        ch.contains_key(p) && 0 <= i < ch[p].len() ==> ch[p][i].len() > p.len()
}

/// No ID in the lists, and no parent ID with a list, is longer than `b`.
pub open spec fn lists_bounded(ch: Map<Seq<char>, Seq<Seq<char>>>, b: nat) -> bool {
    &&& forall|p: Seq<char>, i: int| #![trigger ch[p][i]] ch.contains_key(p) && 0 <= i < ch[p].len() ==> ch[p][i].len() <= b
    &&& forall|p: Seq<char>| #[trigger] ch.contains_key(p) ==> p.len() <= b
}

/// The agents listed in `ids` that exist, in list order.
pub open spec fn existing_agents(agents: Map<Seq<char>, AgentInfo>, ids: Seq<Seq<char>>) -> Seq<AgentInfo>
    decreases ids.len(),
{
    if ids.len() == 0 {
        Seq::empty()
    } else {
        let prev = existing_agents(agents, ids.drop_last());
        if agents.contains_key(ids.last()) {
            prev.push(agents[ids.last()])
        } else {
            prev
        }
    }
}

/// Splitting at the last dot: `x.d` and `y.e` with digit-only `d`, `e` are
/// the same text only when `x == y` and `d == e`.
proof fn lemma_last_dot(x: Seq<char>, d: Seq<char>, y: Seq<char>, e: Seq<char>)
    requires
        forall|i: int| 0 <= i < d.len() ==> '0' <= #[trigger] d[i] <= '9',
        forall|i: int| 0 <= i < e.len() ==> '0' <= #[trigger] e[i] <= '9',
        x + "."@ + d == y + "."@ + e,
    ensures
        x == y,
        d == e,
{
    reveal_strlit(".");
    assert("."@.len() == 1);
    assert("."@[0] == '.');
    let xd = x + "."@;
    let ye = y + "."@;
    let l = xd + d;
    let r = ye + e;
    assert(l.len() == x.len() + 1 + d.len());
    assert(r.len() == y.len() + 1 + e.len());
    assert(xd[x.len() as int] == '.');
    assert(ye[y.len() as int] == '.');
    assert(l[x.len() as int] == '.');
    assert(r[y.len() as int] == '.');
    if x.len() < y.len() {
        assert(l[y.len() as int] == d[y.len() - x.len() - 1]);
        assert(false);
    } else if y.len() < x.len() {
        assert(r[x.len() as int] == e[x.len() - y.len() - 1]);
        assert(false);
    }
    assert(x =~= l.subrange(0, x.len() as int));
    assert(y =~= r.subrange(0, y.len() as int));
    assert(d =~= l.subrange(x.len() as int + 1, l.len() as int));
    assert(e =~= r.subrange(y.len() as int + 1, r.len() as int));
}

/// A root ID holds no dot; a child ID holds one after its parent's ID.
proof fn lemma_root_not_child(n: nat, p: Seq<char>, k: nat)
    ensures
        root_id(n) != child_id(p, k),
{
    reveal_strlit("id");
    reveal_strlit(".");
    assert("id"@.len() == 2);
    assert("id"@[0] == 'i' && "id"@[1] == 'd');
    assert("."@.len() == 1);
    assert("."@[0] == '.');
    lemma_decimal_digits(n);
    let pd = p + "."@;
    let c = pd + decimal(k);
    assert(pd[p.len() as int] == '.');
    assert(c[p.len() as int] == '.');
    let r = "id"@ + decimal(n);
    assert(r.len() == 2 + decimal(n).len());
    if r == c {
        if p.len() < 2 {
            assert(r[p.len() as int] == "id"@[p.len() as int]);
        } else {
            assert(r[p.len() as int] == decimal(n)[p.len() - 2]);
        }
        assert(false);
    }
}

/// Root IDs of different numbers differ.
proof fn lemma_root_ids_distinct(a: nat, b: nat)
    requires
        root_id(a) == root_id(b),
    ensures
        a == b,
{
    reveal_strlit("id");
    assert("id"@.len() == 2);
    let ra = "id"@ + decimal(a);
    let rb = "id"@ + decimal(b);
    assert(decimal(a) =~= ra.subrange(2, ra.len() as int));
    assert(decimal(b) =~= rb.subrange(2, rb.len() as int));
    lemma_decimal_injective(a, b);
}

/// The number `n` of a root ID `id{n}`, where `n` fits in a `u64`.
pub open spec fn root_number(id: Seq<char>) -> Option<nat> {
    if exists|n: nat| n <= u64::MAX && id == #[trigger] root_id(n) {
        Some(choose|n: nat| n <= u64::MAX && id == #[trigger] root_id(n))
    } else {
        None
    }
}

/// The parent ID and number `k` of a child ID `parent.k`, where `k` fits in
/// a `u64`.
pub open spec fn child_number(id: Seq<char>) -> Option<(Seq<char>, nat)> {
    if exists|p: Seq<char>, k: nat| k <= u64::MAX && id == #[trigger] child_id(p, k) {
        Some(choose|p: Seq<char>, k: nat| k <= u64::MAX && id == #[trigger] child_id(p, k))
    } else {
        None
    }
}

/// The child counter of `p`: the number of the last child ID handed out
/// under `p` (zero before the first).
pub open spec fn count_of(cc: Map<Seq<char>, u64>, p: Seq<char>) -> nat {
    if cc.contains_key(p) {
        cc[p] as nat
    } else {
        0
    }
}

/// No agent's ID lies ahead of the counters: every root ID `id{n}` in use
/// has `n` at most the root counter, every child ID `p.k` in use has `k` at
/// most the child counter of `p`. The next IDs the counters hand out are
/// therefore never in use.
pub open spec fn ids_behind(agents: Map<Seq<char>, AgentInfo>, counter: u64, cc: Map<Seq<char>, u64>) -> bool {
    &&& forall|n: nat| n <= u64::MAX && #[trigger] agents.contains_key(root_id(n)) ==> n <= counter
    &&& forall|p: Seq<char>, k: nat| k <= u64::MAX && #[trigger] agents.contains_key(child_id(p, k)) ==> k <= count_of(cc, p)
}

/// `c` raised to the root number `id` carries, if that is larger.
pub open spec fn raise_root(c: u64, id: Seq<char>) -> u64 {
    match root_number(id) {
        Some(n) => if n > c { n as u64 } else { c },
        None => c,
    }
}

/// `cc` with the child counter of `id`'s parent raised to `id`'s number, if
/// that is larger.
pub open spec fn raise_child(cc: Map<Seq<char>, u64>, id: Seq<char>) -> Map<Seq<char>, u64> {
    match child_number(id) {
        Some((p, k)) => if k > count_of(cc, p) { cc.insert(p, k as u64) } else { cc },
        None => cc,
    }
}

/// The root counter after loading: the stored counter, raised to the
/// highest root number among the loaded IDs and their parents' IDs.
pub open spec fn loaded_counter(recs: Seq<AgentInfo>, stored: u64) -> u64
    decreases recs.len(),
{
    if recs.len() == 0 {
        stored
    } else {
        let c = raise_root(loaded_counter(recs.drop_last(), stored), recs.last().agent_id@);
        match recs.last().parent_id {
            Some(p) => raise_root(c, p@),
            None => c,
        }
    }
}

/// The child counters after loading: for each parent, the highest child
/// number among the loaded IDs and their parents' IDs.
pub open spec fn loaded_child_counters(recs: Seq<AgentInfo>) -> Map<Seq<char>, u64>
    decreases recs.len(),
{
    if recs.len() == 0 {
        Map::empty()
    } else {
        let cc = raise_child(loaded_child_counters(recs.drop_last()), recs.last().agent_id@);
        match recs.last().parent_id {
            Some(p) => raise_child(cc, p@),
            None => cc,
        }
    }
}

/// `id` is not ahead of the counters: as a root ID its number is at most
/// the root counter, as a child ID its number at most its parent's counter.
pub open spec fn id_behind(id: Seq<char>, counter: u64, cc: Map<Seq<char>, u64>) -> bool {
    &&& forall|n: nat| n <= u64::MAX && id == #[trigger] root_id(n) ==> n <= counter
    &&& forall|p: Seq<char>, k: nat| k <= u64::MAX && id == #[trigger] child_id(p, k) ==> k <= count_of(cc, p)
}

/// No agent's parent ID lies ahead of the counters either.
pub open spec fn parents_behind(agents: Map<Seq<char>, AgentInfo>, counter: u64, cc: Map<Seq<char>, u64>) -> bool {
    forall|k: Seq<char>| #[trigger] agents.contains_key(k) && agents[k].parent_id is Some ==> id_behind(
        agents[k].parent_id->0@,
        counter,
        cc,
    )
}

/// Raising the counters by `id` puts `id` behind them, and lowers no
/// counter.
proof fn lemma_raise(c: u64, cc: Map<Seq<char>, u64>, id: Seq<char>)
    ensures
        id_behind(id, raise_root(c, id), raise_child(cc, id)),
        raise_root(c, id) >= c,
        forall|q: Seq<char>| count_of(cc, q) <= #[trigger] count_of(raise_child(cc, id), q),
{
    assert forall|n: nat| n <= u64::MAX && id == #[trigger] root_id(n) implies n <= raise_root(c, id) by {
        let m = choose|m: nat| m <= u64::MAX && id == #[trigger] root_id(m);
        lemma_root_ids_distinct(m, n);
    }
    assert forall|p: Seq<char>, k: nat| k <= u64::MAX && id == #[trigger] child_id(p, k) implies k <= count_of(
        raise_child(cc, id),
        p,
    ) by {
        let (q, m) = choose|q: Seq<char>, m: nat| m <= u64::MAX && id == #[trigger] child_id(q, m);
        lemma_child_ids_distinct(q, m, p, k);
    }
}

/// Counters that only grow keep an ID behind them.
proof fn lemma_behind_mono(id: Seq<char>, c: u64, cc: Map<Seq<char>, u64>, c2: u64, cc2: Map<Seq<char>, u64>)
    requires
        id_behind(id, c, cc),
        c <= c2,
        forall|q: Seq<char>| count_of(cc, q) <= #[trigger] count_of(cc2, q),
    ensures
        id_behind(id, c2, cc2),
{
    assert forall|p: Seq<char>, k: nat| k <= u64::MAX && id == #[trigger] child_id(p, k) implies k <= count_of(cc2, p) by {
        assert(count_of(cc, p) <= count_of(cc2, p));
    }
}

/// Counters that only grow keep every ID and parent ID behind them.
proof fn lemma_all_behind_mono(a: Map<Seq<char>, AgentInfo>, c: u64, cc: Map<Seq<char>, u64>, c2: u64, cc2: Map<Seq<char>, u64>)
    requires
        ids_behind(a, c, cc),
        parents_behind(a, c, cc),
        c <= c2,
        forall|q: Seq<char>| count_of(cc, q) <= #[trigger] count_of(cc2, q),
    ensures
        ids_behind(a, c2, cc2),
        parents_behind(a, c2, cc2),
{
    assert forall|p: Seq<char>, k: nat| k <= u64::MAX && #[trigger] a.contains_key(child_id(p, k)) implies k <= count_of(cc2, p) by {
        assert(count_of(cc, p) <= count_of(cc2, p));
    }
    assert forall|k: Seq<char>| #[trigger] a.contains_key(k) && a[k].parent_id is Some implies id_behind(a[k].parent_id->0@, c2, cc2) by {
        lemma_behind_mono(a[k].parent_id->0@, c, cc, c2, cc2);
    }
}

/// An agent's ID is behind the counters.
proof fn lemma_agent_behind(a: Map<Seq<char>, AgentInfo>, c: u64, cc: Map<Seq<char>, u64>, x: Seq<char>)
    requires
        ids_behind(a, c, cc),
        a.contains_key(x),
    ensures
        id_behind(x, c, cc),
{
    assert forall|n: nat| n <= u64::MAX && x == #[trigger] root_id(n) implies n <= c by {
        assert(a.contains_key(root_id(n)));
    }
    assert forall|p: Seq<char>, k: nat| k <= u64::MAX && x == #[trigger] child_id(p, k) implies k <= count_of(cc, p) by {
        assert(a.contains_key(child_id(p, k)));
    }
}

/// Adding an agent whose ID and parent ID are behind the counters keeps
/// every ID and parent ID behind them.
proof fn lemma_behind_insert(a: Map<Seq<char>, AgentInfo>, c: u64, cc: Map<Seq<char>, u64>, id: Seq<char>, info: AgentInfo)
    requires
        ids_behind(a, c, cc),
        parents_behind(a, c, cc),
        id_behind(id, c, cc),
        info.parent_id is Some ==> id_behind(info.parent_id->0@, c, cc),
    ensures
        ids_behind(a.insert(id, info), c, cc),
        parents_behind(a.insert(id, info), c, cc),
{
    let a2 = a.insert(id, info);
    assert forall|n: nat| n <= u64::MAX && #[trigger] a2.contains_key(root_id(n)) implies n <= c by {
        if root_id(n) != id {
            assert(a.contains_key(root_id(n)));
        }
    }
    assert forall|p: Seq<char>, k: nat| k <= u64::MAX && #[trigger] a2.contains_key(child_id(p, k)) implies k <= count_of(cc, p) by {
        if child_id(p, k) != id {
            assert(a.contains_key(child_id(p, k)));
        }
    }
    assert forall|k: Seq<char>| #[trigger] a2.contains_key(k) && a2[k].parent_id is Some implies id_behind(a2[k].parent_id->0@, c, cc) by {
        if k != id {
            assert(a.contains_key(k));
        }
    }
}

/// The loaded IDs in the order they first occur.
pub open spec fn stored_order(recs: Seq<AgentInfo>) -> Seq<Seq<char>>
    decreases recs.len(),
{
    if recs.len() == 0 {
        Seq::empty()
    } else {
        let prev = stored_order(recs.drop_last());
        if prev.contains(recs.last().agent_id@) {
            prev
        } else {
            prev.push(recs.last().agent_id@)
        }
    }
}

/// Two child IDs are the same only with the same parent and number.
proof fn lemma_child_ids_distinct(p: Seq<char>, k: nat, q: Seq<char>, m: nat)
    requires
        child_id(p, k) == child_id(q, m),
    ensures
        p == q,
        k == m,
{
    lemma_decimal_digits(k);
    lemma_decimal_digits(m);
    lemma_last_dot(p, decimal(k), q, decimal(m));
    lemma_decimal_injective(k, m);
}

/// Counters that only grow keep every ID behind them, and so does a map
/// that only drops agents.
proof fn lemma_ids_behind_kept(
    a: Map<Seq<char>, AgentInfo>,
    b: Map<Seq<char>, AgentInfo>,
    c: u64,
    cc: Map<Seq<char>, u64>,
)
    requires
        ids_behind(a, c, cc),
        forall|k: Seq<char>| #[trigger] b.contains_key(k) ==> a.contains_key(k),
    ensures
        ids_behind(b, c, cc),
        parents_behind(a, c, cc) && (forall|k: Seq<char>| #[trigger] b.contains_key(k) ==> b[k].parent_id == a[k].parent_id)
            ==> parents_behind(b, c, cc),
{
    assert forall|n: nat| n <= u64::MAX && #[trigger] b.contains_key(root_id(n)) implies n <= c by {
        assert(a.contains_key(root_id(n)));
    }
    if parents_behind(a, c, cc) && (forall|k: Seq<char>| #[trigger] b.contains_key(k) ==> b[k].parent_id == a[k].parent_id) {
        assert forall|k: Seq<char>| #[trigger] b.contains_key(k) && b[k].parent_id is Some implies id_behind(b[k].parent_id->0@, c, cc) by {
            assert(a.contains_key(k));
        }
    }
    assert forall|p: Seq<char>, k: nat| k <= u64::MAX && #[trigger] b.contains_key(child_id(p, k)) implies k <= count_of(cc, p) by {
        assert(a.contains_key(child_id(p, k)));
    }
}

/// `id{n}` as the number it names.
fn root_number_of(id: &str) -> (r: Option<u64>)
    ensures
        match r {
            Some(n) => root_number(id@) == Some(n as nat),
            None => root_number(id@) is None,
        },
{
    let cs = chars_of(id);
    proof {
        reveal_strlit("id");
        assert("id"@.len() == 2 && "id"@[0] == 'i' && "id"@[1] == 'd');
    }
    let r = if cs.len() >= 2 && cs[0] == 'i' && cs[1] == 'd' {
        decimal_value(&cs, 2)
    } else {
        None
    };
    proof {
        match r {
            Some(n) => {
                assert(id@ =~= root_id(n as nat));
                let m = choose|m: nat| m <= u64::MAX && id@ == #[trigger] root_id(m);
                lemma_root_ids_distinct(m, n as nat);
            },
            None => {
                if exists|n: nat| n <= u64::MAX && id@ == #[trigger] root_id(n) {
                    let n = choose|n: nat| n <= u64::MAX && id@ == #[trigger] root_id(n);
                    assert(id@[0] == 'i' && id@[1] == 'd');
                    lemma_decimal_len(n);
                    assert(cs@.skip(2) =~= decimal(n));
                }
            },
        }
    }
    r
}

/// The position of the last `.` in `cs`.
fn last_dot(cs: &Vec<char>) -> (r: Option<usize>)
    ensures
        match r {
            Some(j) => j < cs@.len() && cs@[j as int] == '.' && forall|i: int| j < i < cs@.len() ==> cs@[i] != '.',
            None => forall|i: int| 0 <= i < cs@.len() ==> cs@[i] != '.',
        },
{
    let mut j = cs.len();
    while j > 0
        invariant
            j <= cs@.len(),
            forall|i: int| j <= i < cs@.len() ==> cs@[i] != '.',
        decreases j,
    {
        if cs[j - 1] == '.' {
            return Some(j - 1);
        }
        j -= 1;
    }
    None
}

/// `parent.k` as its parent ID and number.
fn child_number_of(id: &str) -> (r: Option<(String, u64)>)
    ensures
        match r {
            Some((p, k)) => child_number(id@) == Some((p@, k as nat)),
            None => child_number(id@) is None,
        },
{
    let cs = chars_of(id);
    proof {
        reveal_strlit(".");
        assert("."@.len() == 1 && "."@[0] == '.');
    }
    match last_dot(&cs) {
        None => {
            proof {
                if exists|q: Seq<char>, m: nat| m <= u64::MAX && id@ == #[trigger] child_id(q, m) {
                    let (q, m) = choose|q: Seq<char>, m: nat| m <= u64::MAX && id@ == #[trigger] child_id(q, m);
                    let qd = q + "."@;
                    assert(qd[q.len() as int] == '.');
                    assert(id@[q.len() as int] == '.');
                }
            }
            None
        },
        Some(j) => match decimal_value(&cs, {
            assert(j < cs.len());
            j + 1
        }) {
            Some(k) => {
                let p = string_of(&take_chars(&cs, j));
                proof {
                    assert(id@ =~= child_id(p@, k as nat));
                    let (q, m) = choose|q: Seq<char>, m: nat| m <= u64::MAX && id@ == #[trigger] child_id(q, m);
                    lemma_child_ids_distinct(q, m, p@, k as nat);
                }
                Some((p, k))
            },
            None => {
                proof {
                    if exists|q: Seq<char>, m: nat| m <= u64::MAX && id@ == #[trigger] child_id(q, m) {
                        let (q, m) = choose|q: Seq<char>, m: nat| m <= u64::MAX && id@ == #[trigger] child_id(q, m);
                        lemma_decimal_digits(m);
                        let qd = q + "."@;
                        assert(qd[q.len() as int] == '.');
                        assert(id@[q.len() as int] == '.');
                        if j > q.len() {
                            assert(id@[j as int] == decimal(m)[j - q.len() - 1]);
                        }
                        assert(j == q.len());
                        assert(cs@.skip(j + 1) =~= decimal(m));
                    }
                }
                None
            },
        },
    }
}

/// The agents a visit of `kids` reaches are those the visits of each kid
/// reach.
proof fn lemma_visit_kids_members(ch: Map<Seq<char>, Seq<Seq<char>>>, kids: Seq<Seq<char>>, fuel: nat, x: Seq<char>)
    ensures
        visit_kids(ch, kids, fuel).contains(x) <==> exists|i: int| 0 <= i < kids.len() && #[trigger] visit_order(
            ch,
            kids[i],
            fuel,
        ).contains(x),
    decreases kids.len(),
{
    if kids.len() > 0 {
        lemma_visit_kids_members(ch, kids.drop_last(), fuel, x);
        lemma_contains_add(visit_order(ch, kids.last(), fuel), visit_kids(ch, kids.drop_last(), fuel), x);
        if exists|i: int| 0 <= i < kids.len() && #[trigger] visit_order(ch, kids[i], fuel).contains(x) {
            let i = choose|i: int| 0 <= i < kids.len() && #[trigger] visit_order(ch, kids[i], fuel).contains(x);
            if i < kids.len() - 1 {
                assert(kids.drop_last()[i] == kids[i]);
            }
        }
        if exists|i: int| 0 <= i < kids.drop_last().len() && #[trigger] visit_order(ch, kids.drop_last()[i], fuel).contains(x) {
            let i = choose|i: int| 0 <= i < kids.drop_last().len() && #[trigger] visit_order(ch, kids.drop_last()[i], fuel).contains(x);
            assert(kids[i] == kids.drop_last()[i]);
        }
    }
}

proof fn lemma_visit_starts(ch: Map<Seq<char>, Seq<Seq<char>>>, id: Seq<char>, fuel: nat)
    ensures
        visit_order(ch, id, fuel).contains(id),
{
    assert(visit_order(ch, id, fuel)[0] == id);
}

/// With enough fuel for IDs that grow along every child link, a visit
/// reaches the listed children of every agent it reaches.
proof fn lemma_visit_closed(ch: Map<Seq<char>, Seq<Seq<char>>>, id: Seq<char>, fuel: nat, bound: nat, x: Seq<char>, c: Seq<char>)
    requires
        ids_grow(ch),
        forall|p: Seq<char>, i: int| #![trigger ch[p][i]] ch.contains_key(p) && 0 <= i < ch[p].len() ==> ch[p][i].len() <= bound,
        fuel + id.len() > bound,
        visit_order(ch, id, fuel).contains(x),
        kids_of(ch, x).contains(c),
    ensures
        visit_order(ch, id, fuel).contains(c),
    decreases fuel,
{
    let kids = kids_of(ch, id);
    if fuel == 0 {
        assert(x == id) by {
            assert(visit_order(ch, id, fuel) =~= seq![id]);
        }
        let i = choose|i: int| 0 <= i < kids_of(ch, x).len() && kids_of(ch, x)[i] == c;
        assert(ch[x][i].len() > x.len());
        assert(false);
    } else {
        let rest = visit_kids(ch, kids, (fuel - 1) as nat);
        lemma_contains_add(seq![id], rest, x);
        lemma_contains_add(seq![id], rest, c);
        if x == id {
            let i = choose|i: int| 0 <= i < kids.len() && kids[i] == c;
            lemma_visit_starts(ch, c, (fuel - 1) as nat);
            lemma_visit_kids_members(ch, kids, (fuel - 1) as nat, c);
        } else {
            assert(seq![id].contains(x) ==> x == id);
            lemma_visit_kids_members(ch, kids, (fuel - 1) as nat, x);
            let i = choose|i: int| 0 <= i < kids.len() && #[trigger] visit_order(ch, kids[i], (fuel - 1) as nat).contains(x);
            assert(kids[i].len() > id.len()) by {
                assert(ch.contains_key(id));
                assert(ch[id][i] == kids[i]);
            }
            lemma_visit_closed(ch, kids[i], (fuel - 1) as nat, bound, x, c);
            lemma_visit_kids_members(ch, kids, (fuel - 1) as nat, c);
        }
    }
}

/// Every agent a visit reaches, but its start, is a listed child of one it
/// reaches.
proof fn lemma_visit_descends(ch: Map<Seq<char>, Seq<Seq<char>>>, id: Seq<char>, fuel: nat, x: Seq<char>)
    requires
        visit_order(ch, id, fuel).contains(x),
        x != id,
    ensures
        exists|y: Seq<char>| visit_order(ch, id, fuel).contains(y) && #[trigger] kids_of(ch, y).contains(x),
    decreases fuel,
{
    let kids = kids_of(ch, id);
    if fuel == 0 {
        assert(visit_order(ch, id, fuel) =~= seq![id]);
        assert(seq![id].contains(x) ==> x == id);
    } else {
        let f1 = (fuel - 1) as nat;
        let rest = visit_kids(ch, kids, f1);
        lemma_contains_add(seq![id], rest, x);
        assert(seq![id].contains(x) ==> x == id);
        lemma_visit_kids_members(ch, kids, f1, x);
        let i = choose|i: int| 0 <= i < kids.len() && #[trigger] visit_order(ch, kids[i], f1).contains(x);
        if x == kids[i] {
            assert(kids.contains(x));
            lemma_visit_starts(ch, id, fuel);
        } else {
            lemma_visit_descends(ch, kids[i], f1, x);
            let y = choose|y: Seq<char>| visit_order(ch, kids[i], f1).contains(y) && #[trigger] kids_of(ch, y).contains(x);
            lemma_visit_kids_members(ch, kids, f1, y);
            lemma_contains_add(seq![id], rest, y);
        }
    }
}

/// Every listed child is an agent whose parent is the list's owner, and no
/// list names a child twice.
pub open spec fn children_linked(agents: Map<Seq<char>, AgentInfo>, ch: Map<Seq<char>, Seq<Seq<char>>>) -> bool {
    &&& forall|p: Seq<char>, i: int| #![trigger ch[p][i]]
        ch.contains_key(p) && 0 <= i < ch[p].len() ==> agents.contains_key(ch[p][i]) && agents[ch[p][i]].parent_id is Some
            && agents[ch[p][i]].parent_id->0@ == p
    &&& forall|p: Seq<char>| #[trigger] ch.contains_key(p) ==> ch[p].no_duplicates()
}

/// Every agent whose parent is an agent is listed under that parent.
pub open spec fn children_complete(agents: Map<Seq<char>, AgentInfo>, ch: Map<Seq<char>, Seq<Seq<char>>>) -> bool {
    forall|c: Seq<char>| #[trigger] agents.contains_key(c) && agents[c].parent_id is Some && agents.contains_key(
        agents[c].parent_id->0@,
    ) ==> kids_of(ch, agents[c].parent_id->0@).contains(c)
}

/// Every agent with a parent is listed under it, whether the parent is an
/// agent or not (as loading leaves them).
pub open spec fn all_listed(agents: Map<Seq<char>, AgentInfo>, ch: Map<Seq<char>, Seq<Seq<char>>>) -> bool {
    forall|c: Seq<char>| #[trigger] agents.contains_key(c) && agents[c].parent_id is Some ==> kids_of(
        ch,
        agents[c].parent_id->0@,
    ).contains(c)
}

/// What a listed child is: an agent, longer than its parent's ID, whose
/// parent is the list's owner.
proof fn lemma_kid(agents: Map<Seq<char>, AgentInfo>, ch: Map<Seq<char>, Seq<Seq<char>>>, y: Seq<char>, x: Seq<char>)
    requires
        ids_grow(ch),
        children_linked(agents, ch),
        kids_of(ch, y).contains(x),
    ensures
        x.len() > y.len(),
        agents.contains_key(x),
        agents[x].parent_id is Some,
        agents[x].parent_id->0@ == y,
{
    let i = choose|i: int| 0 <= i < kids_of(ch, y).len() && kids_of(ch, y)[i] == x;
    assert(ch.contains_key(y));
    assert(ch[y][i] == x);
}

/// Along the children lists IDs grow, so a visit reaches nothing shorter
/// than its start but the start itself.
proof fn lemma_visit_longer(ch: Map<Seq<char>, Seq<Seq<char>>>, id: Seq<char>, fuel: nat, x: Seq<char>)
    requires
        ids_grow(ch),
        visit_order(ch, id, fuel).contains(x),
    ensures
        x == id || x.len() > id.len(),
    decreases fuel,
{
    if fuel > 0 && x != id {
        let kids = kids_of(ch, id);
        let f1 = (fuel - 1) as nat;
        lemma_contains_add(seq![id], visit_kids(ch, kids, f1), x);
        assert(seq![id].contains(x) ==> x == id);
        lemma_visit_kids_members(ch, kids, f1, x);
        let i = choose|i: int| 0 <= i < kids.len() && #[trigger] visit_order(ch, kids[i], f1).contains(x);
        lemma_visit_longer(ch, kids[i], f1, x);
        assert(ch.contains_key(id));
        assert(ch[id][i] == kids[i]);
    } else if fuel == 0 {
        assert(visit_order(ch, id, fuel) =~= seq![id]);
        assert(seq![id].contains(x) ==> x == id);
    }
}

/// The parent of an agent a visit reaches, other than its start, is
/// reached too.
proof fn lemma_visit_parent(agents: Map<Seq<char>, AgentInfo>, ch: Map<Seq<char>, Seq<Seq<char>>>, id: Seq<char>, fuel: nat, x: Seq<char>)
    requires
        ids_grow(ch),
        children_linked(agents, ch),
        visit_order(ch, id, fuel).contains(x),
        x != id,
    ensures
        agents.contains_key(x),
        agents[x].parent_id is Some,
        visit_order(ch, id, fuel).contains(agents[x].parent_id->0@),
        kids_of(ch, agents[x].parent_id->0@).contains(x),
{
    lemma_visit_descends(ch, id, fuel, x);
    let y = choose|y: Seq<char>| visit_order(ch, id, fuel).contains(y) && #[trigger] kids_of(ch, y).contains(x);
    lemma_kid(agents, ch, y, x);
}

/// The subtrees of two different children of one parent share no agent.
proof fn lemma_visits_disjoint(
    agents: Map<Seq<char>, AgentInfo>,
    ch: Map<Seq<char>, Seq<Seq<char>>>,
    p: Seq<char>,
    a: Seq<char>,
    fa: nat,
    b: Seq<char>,
    fb: nat,
    x: Seq<char>,
)
    requires
        ids_grow(ch),
        children_linked(agents, ch),
        kids_of(ch, p).contains(a),
        kids_of(ch, p).contains(b),
        a != b,
    ensures
        !(visit_order(ch, a, fa).contains(x) && visit_order(ch, b, fb).contains(x)),
    decreases x.len(),
{
    if visit_order(ch, a, fa).contains(x) && visit_order(ch, b, fb).contains(x) {
        lemma_kid(agents, ch, p, a);
        lemma_kid(agents, ch, p, b);
        if x == a {
            lemma_visit_parent(agents, ch, b, fb, a);
            lemma_visit_longer(ch, b, fb, p);
        } else if x == b {
            lemma_visit_parent(agents, ch, a, fa, b);
            lemma_visit_longer(ch, a, fa, p);
        } else {
            lemma_visit_parent(agents, ch, a, fa, x);
            lemma_visit_parent(agents, ch, b, fb, x);
            let q = agents[x].parent_id->0@;
            lemma_kid(agents, ch, q, x);
            lemma_visits_disjoint(agents, ch, p, a, fa, b, fb, q);
        }
    }
}

/// A filtered sequence without duplicates has none either.
pub proof fn lemma_filter_no_dup<A>(s: Seq<A>, p: spec_fn(A) -> bool)
    requires
        s.no_duplicates(),
    ensures
        s.filter(p).no_duplicates(),
    decreases s.len(),
{
    reveal_with_fuel(Seq::<_>::filter, 1);
    if s.len() > 0 {
        let q = s.drop_last();
        assert(q.no_duplicates()) by {
            assert forall|i: int, j: int| 0 <= i < q.len() && 0 <= j < q.len() && i != j implies q[i] != q[j] by {
                assert(q[i] == s[i] && q[j] == s[j]);
            }
        }
        lemma_filter_no_dup(q, p);
        if p(s.last()) {
            assert(!q.filter(p).contains(s.last())) by {
                if q.filter(p).contains(s.last()) {
                    let i = choose|i: int| 0 <= i < q.filter(p).len() && q.filter(p)[i] == s.last();
                    lemma_filter_from(q, p, i);
                    let j = choose|j: int| 0 <= j < q.len() && q[j] == q.filter(p)[i];
                    assert(s[j] == s[s.len() - 1]);
                }
            }
            let f = q.filter(p);
            assert forall|i: int, j: int| 0 <= i < f.push(s.last()).len() && 0 <= j < f.push(s.last()).len() && i != j
                implies f.push(s.last())[i] != f.push(s.last())[j] by {
                if i == f.len() {
                    assert(f[j] != s.last());
                } else if j == f.len() {
                    assert(f[i] != s.last());
                }
            }
        }
    }
}

/// A visit of listed children of one parent, none twice, meets no agent
/// twice.
proof fn lemma_visit_kids_no_dup(
    agents: Map<Seq<char>, AgentInfo>,
    ch: Map<Seq<char>, Seq<Seq<char>>>,
    p: Seq<char>,
    kids: Seq<Seq<char>>,
    fuel: nat,
)
    requires
        ids_grow(ch),
        children_linked(agents, ch),
        kids.no_duplicates(),
        forall|i: int| 0 <= i < kids.len() ==> kids_of(ch, p).contains(#[trigger] kids[i]),
    ensures
        visit_kids(ch, kids, fuel).no_duplicates(),
    decreases fuel, kids.len(),
{
    if kids.len() > 0 {
        let last = kids.last();
        let rest = kids.drop_last();
        assert(rest.no_duplicates()) by {
            assert forall|i: int, j: int| 0 <= i < rest.len() && 0 <= j < rest.len() && i != j implies rest[i] != rest[j] by {
                assert(rest[i] == kids[i] && rest[j] == kids[j]);
            }
        }
        assert forall|i: int| 0 <= i < rest.len() implies kids_of(ch, p).contains(#[trigger] rest[i]) by {
            assert(rest[i] == kids[i]);
        }
        assert(kids_of(ch, p).contains(kids[kids.len() - 1]));
        lemma_visit_no_dup(agents, ch, last, fuel);
        lemma_visit_kids_no_dup(agents, ch, p, rest, fuel);
        let va = visit_order(ch, last, fuel);
        let vb = visit_kids(ch, rest, fuel);
        assert forall|i: int, j: int| 0 <= i < va.len() && 0 <= j < vb.len() implies va[i] != vb[j] by {
            let x = vb[j];
            assert(vb.contains(x));
            lemma_visit_kids_members(ch, rest, fuel, x);
            let k = choose|k: int| 0 <= k < rest.len() && #[trigger] visit_order(ch, rest[k], fuel).contains(x);
            assert(rest[k] == kids[k]);
            assert(kids[k] != kids[kids.len() - 1]);
            lemma_visits_disjoint(agents, ch, p, last, fuel, rest[k], fuel, x);
            assert(va.contains(va[i]));
        }
        vstd::seq_lib::lemma_no_dup_in_concat(va, vb);
    }
}

/// A visit meets no agent twice when the children lists are linked to
/// the agents' parents.
proof fn lemma_visit_no_dup(agents: Map<Seq<char>, AgentInfo>, ch: Map<Seq<char>, Seq<Seq<char>>>, id: Seq<char>, fuel: nat)
    requires
        ids_grow(ch),
        children_linked(agents, ch),
    ensures
        visit_order(ch, id, fuel).no_duplicates(),
    decreases fuel, 0nat,
{
    if fuel == 0 {
        assert(visit_order(ch, id, fuel) =~= seq![id]);
    } else {
        let f1 = (fuel - 1) as nat;
        let kids = kids_of(ch, id);
        assert(kids.no_duplicates()) by {
            if !ch.contains_key(id) {
                assert(kids =~= Seq::<Seq<char>>::empty());
            }
        }
        lemma_visit_kids_no_dup(agents, ch, id, kids, f1);
        let vk = visit_kids(ch, kids, f1);
        assert forall|i: int, j: int| 0 <= i < seq![id].len() && 0 <= j < vk.len() implies seq![id][i] != vk[j] by {
            let x = vk[j];
            assert(vk.contains(x));
            lemma_visit_kids_members(ch, kids, f1, x);
            let k = choose|k: int| 0 <= k < kids.len() && #[trigger] visit_order(ch, kids[k], f1).contains(x);
            assert(kids.contains(kids[k]));
            lemma_kid(agents, ch, id, kids[k]);
            lemma_visit_longer(ch, kids[k], f1, x);
        }
        vstd::seq_lib::lemma_no_dup_in_concat(seq![id], vk);
    }
}

/// Rewriting agents' records without touching their parents keeps the
/// children lists linked.
proof fn lemma_linked_same_parents(
    agents: Map<Seq<char>, AgentInfo>,
    after: Map<Seq<char>, AgentInfo>,
    ch: Map<Seq<char>, Seq<Seq<char>>>,
)
    requires
        children_linked(agents, ch),
        forall|k: Seq<char>| #[trigger] agents.contains_key(k) ==> after.contains_key(k) && after[k].parent_id
            == agents[k].parent_id,
    ensures
        children_linked(after, ch),
{
    assert forall|p: Seq<char>, i: int| #![trigger ch[p][i]] ch.contains_key(p) && 0 <= i < ch[p].len() implies after.contains_key(
        ch[p][i],
    ) && after[ch[p][i]].parent_id is Some && after[ch[p][i]].parent_id->0@ == p by {
        assert(agents.contains_key(ch[p][i]));
    }
}

/// A new agent under `parent`, joining the end of its parent's list, keeps
/// the lists linked.
proof fn lemma_linked_add_child(
    agents: Map<Seq<char>, AgentInfo>,
    ch: Map<Seq<char>, Seq<Seq<char>>>,
    id: Seq<char>,
    info: AgentInfo,
    parent: Seq<char>,
)
    requires
        children_linked(agents, ch),
        !agents.contains_key(id),
        info.parent_id is Some,
        info.parent_id->0@ == parent,
    ensures
        children_linked(agents.insert(id, info), ch.insert(parent, kids_of(ch, parent).push(id))),
{
    let a2 = agents.insert(id, info);
    let ch2 = ch.insert(parent, kids_of(ch, parent).push(id));
    let old_kids = kids_of(ch, parent);
    assert forall|p: Seq<char>, i: int| #![trigger ch2[p][i]] ch2.contains_key(p) && 0 <= i < ch2[p].len() implies a2.contains_key(
        ch2[p][i],
    ) && a2[ch2[p][i]].parent_id is Some && a2[ch2[p][i]].parent_id->0@ == p by {
        if p == parent && i == old_kids.len() {
            assert(ch2[p][i] == id);
        } else {
            if p == parent {
                assert(ch2[p][i] == ch[p][i]);
            } else {
                assert(ch2[p][i] == ch[p][i]);
            }
            assert(agents.contains_key(ch[p][i]));
        }
    }
    assert forall|p: Seq<char>| #[trigger] ch2.contains_key(p) implies ch2[p].no_duplicates() by {
        if p == parent {
            assert(!old_kids.contains(id)) by {
                if old_kids.contains(id) {
                    let i = choose|i: int| 0 <= i < old_kids.len() && old_kids[i] == id;
                    assert(ch[parent][i] == id);
                }
            }
            assert(old_kids.no_duplicates()) by {
                if !ch.contains_key(parent) {
                    assert(old_kids =~= Seq::<Seq<char>>::empty());
                }
            }
            assert forall|i: int, j: int| 0 <= i < ch2[p].len() && 0 <= j < ch2[p].len() && i != j implies ch2[p][i] != ch2[p][j] by {
                if i == old_kids.len() {
                    assert(old_kids.contains(ch2[p][j]) ==> ch2[p][j] != id);
                    assert(old_kids[j] == ch2[p][j]);
                } else if j == old_kids.len() {
                    assert(old_kids[i] == ch2[p][i]);
                }
            }
        }
    }
}

/// Adding an agent that no agent names as its parent keeps every agent
/// whose parent is an agent listed; a new child joins its parent's list.
proof fn lemma_complete_add(
    a: Map<Seq<char>, AgentInfo>,
    ch: Map<Seq<char>, Seq<Seq<char>>>,
    ch2: Map<Seq<char>, Seq<Seq<char>>>,
    id: Seq<char>,
    info: AgentInfo,
)
    requires
        children_complete(a, ch),
        forall|c: Seq<char>| #[trigger] a.contains_key(c) && a[c].parent_id is Some ==> a[c].parent_id->0@ != id,
        forall|q: Seq<char>, c: Seq<char>| #[trigger] kids_of(ch, q).contains(c) ==> #[trigger] kids_of(ch2, q).contains(c),
        info.parent_id is Some ==> kids_of(ch2, info.parent_id->0@).contains(id),
    ensures
        children_complete(a.insert(id, info), ch2),
{
    let a2 = a.insert(id, info);
    assert forall|c: Seq<char>| #[trigger] a2.contains_key(c) && a2[c].parent_id is Some && a2.contains_key(a2[c].parent_id->0@)
        implies kids_of(ch2, a2[c].parent_id->0@).contains(c) by {
        if c != id {
            assert(a.contains_key(c));
            assert(a[c].parent_id->0@ != id);
            assert(kids_of(ch, a[c].parent_id->0@).contains(c));
        }
    }
}

/// Loading a record keeps every loaded agent with a parent listed under it.
proof fn lemma_all_listed_add(
    a: Map<Seq<char>, AgentInfo>,
    ch: Map<Seq<char>, Seq<Seq<char>>>,
    ch2: Map<Seq<char>, Seq<Seq<char>>>,
    id: Seq<char>,
    info: AgentInfo,
)
    requires
        all_listed(a, ch),
        forall|q: Seq<char>, c: Seq<char>| #[trigger] kids_of(ch, q).contains(c) ==> #[trigger] kids_of(ch2, q).contains(c),
        info.parent_id is Some ==> kids_of(ch2, info.parent_id->0@).contains(id),
    ensures
        all_listed(a.insert(id, info), ch2),
        children_complete(a.insert(id, info), ch2),
{
    let a2 = a.insert(id, info);
    assert forall|c: Seq<char>| #[trigger] a2.contains_key(c) && a2[c].parent_id is Some implies kids_of(
        ch2,
        a2[c].parent_id->0@,
    ).contains(c) by {
        if c != id {
            assert(a.contains_key(c));
            assert(kids_of(ch, a[c].parent_id->0@).contains(c));
        }
    }
}

/// Pushing onto one list keeps everything listed.
proof fn lemma_push_keeps(ch: Map<Seq<char>, Seq<Seq<char>>>, p: Seq<char>, id: Seq<char>)
    ensures
        forall|q: Seq<char>, c: Seq<char>| #[trigger] kids_of(ch, q).contains(c) ==> #[trigger] kids_of(
            ch.insert(p, kids_of(ch, p).push(id)),
            q,
        ).contains(c),
        kids_of(ch.insert(p, kids_of(ch, p).push(id)), p).contains(id),
{
    let ch2 = ch.insert(p, kids_of(ch, p).push(id));
    assert forall|q: Seq<char>, c: Seq<char>| #[trigger] kids_of(ch, q).contains(c) implies #[trigger] kids_of(ch2, q).contains(c) by {
        let i = choose|i: int| 0 <= i < kids_of(ch, q).len() && kids_of(ch, q)[i] == c;
        assert(kids_of(ch2, q)[i] == c);
    }
    assert(kids_of(ch2, p)[kids_of(ch, p).len() as int] == id);
}

/// A new agent without a parent keeps the lists linked.
proof fn lemma_linked_add_root(agents: Map<Seq<char>, AgentInfo>, ch: Map<Seq<char>, Seq<Seq<char>>>, id: Seq<char>, info: AgentInfo)
    requires
        children_linked(agents, ch),
        !agents.contains_key(id),
    ensures
        children_linked(agents.insert(id, info), ch),
{
    assert forall|p: Seq<char>, i: int| #![trigger ch[p][i]] ch.contains_key(p) && 0 <= i < ch[p].len() implies agents.insert(
        id,
        info,
    ).contains_key(ch[p][i]) && agents.insert(id, info)[ch[p][i]].parent_id is Some && agents.insert(
        id,
        info,
    )[ch[p][i]].parent_id->0@ == p by {
        assert(agents.contains_key(ch[p][i]));
    }
}

/// No two loaded records share an ID.
pub open spec fn ids_distinct(recs: Seq<AgentInfo>) -> bool {
    forall|i: int, j: int| 0 <= i < j < recs.len() ==> #[trigger] recs[i].agent_id@ != #[trigger] recs[j].agent_id@
}

/// A loaded agent's ID is the ID of one of the records.
proof fn lemma_loaded_from(recs: Seq<AgentInfo>, k: Seq<char>)
    requires
        loaded_agents(recs).contains_key(k),
    ensures
        exists|j: int| 0 <= j < recs.len() && recs[j].agent_id@ == k,
    decreases recs.len(),
{
    if recs.last().agent_id@ != k {
        lemma_loaded_from(recs.drop_last(), k);
        let j = choose|j: int| 0 <= j < recs.drop_last().len() && recs.drop_last()[j].agent_id@ == k;
        assert(recs[j] == recs.drop_last()[j]);
    } else {
        assert(recs[recs.len() - 1].agent_id@ == k);
    }
}

/// With IDs that grow along the children lists up to `bound`, any fuel
/// that covers the depth gives the same visit.
proof fn lemma_visit_stable(ch: Map<Seq<char>, Seq<Seq<char>>>, id: Seq<char>, f: nat, g: nat, bound: nat)
    requires
        ids_grow(ch),
        forall|p: Seq<char>, i: int| #![trigger ch[p][i]] ch.contains_key(p) && 0 <= i < ch[p].len() ==> ch[p][i].len() <= bound,
        f + id.len() > bound,
        g + id.len() > bound,
    ensures
        visit_order(ch, id, f) == visit_order(ch, id, g),
    decreases f + g,
{
    let kids = kids_of(ch, id);
    if kids.len() == 0 {
        if f > 0 {
            assert(visit_order(ch, id, f) =~= seq![id]);
        }
        if g > 0 {
            assert(visit_order(ch, id, g) =~= seq![id]);
        }
    } else {
        assert(ch.contains_key(id));
        assert(ch[id][0].len() > id.len() && ch[id][0].len() <= bound);
        lemma_visit_kids_stable(ch, id, kids, (f - 1) as nat, (g - 1) as nat, bound);
    }
}

proof fn lemma_visit_kids_stable(
    ch: Map<Seq<char>, Seq<Seq<char>>>,
    id: Seq<char>,
    kids: Seq<Seq<char>>,
    f: nat,
    g: nat,
    bound: nat,
)
    requires
        ids_grow(ch),
        forall|p: Seq<char>, i: int| #![trigger ch[p][i]] ch.contains_key(p) && 0 <= i < ch[p].len() ==> ch[p][i].len() <= bound,
        f + id.len() >= bound,
        g + id.len() >= bound,
        forall|i: int| 0 <= i < kids.len() ==> (#[trigger] kids[i]).len() > id.len(),
    ensures
        visit_kids(ch, kids, f) == visit_kids(ch, kids, g),
    decreases f + g + 1, kids.len(),
{
    if kids.len() > 0 {
        assert(kids.last() == kids[kids.len() - 1]);
        lemma_visit_stable(ch, kids.last(), f, g, bound);
        assert forall|i: int| 0 <= i < kids.drop_last().len() implies (#[trigger] kids.drop_last()[i]).len() > id.len() by {
            assert(kids.drop_last()[i] == kids[i]);
        }
        lemma_visit_kids_stable(ch, id, kids.drop_last(), f, g, bound);
    }
}

/// The IDs held in a vector of strings.
pub open spec fn ids_of(v: Seq<String>) -> Seq<Seq<char>> {
    v.map_values(|s: String| s@)
}

/// `m` with every agent whose ID occurs in `ids` retired.
pub open spec fn retire_all(m: Map<Seq<char>, AgentInfo>, ids: Seq<Seq<char>>) -> Map<Seq<char>, AgentInfo> {
    Map::new(|k: Seq<char>| m.contains_key(k), |k: Seq<char>| if ids.contains(k) { m[k].retired() } else { m[k] })
}

proof fn lemma_contains_add(a: Seq<Seq<char>>, b: Seq<Seq<char>>, k: Seq<char>)
    ensures
        (a + b).contains(k) == (a.contains(k) || b.contains(k)),
{
    if (a + b).contains(k) {
        let i = choose|i: int| 0 <= i < (a + b).len() && (a + b)[i] == k;
        if i < a.len() {
            assert(a[i] == k);
        } else {
            assert(b[i - a.len()] == k);
        }
    }
    if a.contains(k) {
        let i = choose|i: int| 0 <= i < a.len() && a[i] == k;
        assert((a + b)[i] == k);
    }
    if b.contains(k) {
        let i = choose|i: int| 0 <= i < b.len() && b[i] == k;
        assert((a + b)[i + a.len()] == k);
    }
}

proof fn lemma_retire_all_compose(m: Map<Seq<char>, AgentInfo>, a: Seq<Seq<char>>, b: Seq<Seq<char>>)
    ensures
        retire_all(retire_all(m, a), b) == retire_all(m, a + b),
{
    assert forall|k: Seq<char>| #[trigger] m.contains_key(k) implies retire_all(retire_all(m, a), b)[k] == retire_all(m, a + b)[k] by {
        lemma_contains_add(a, b, k);
    }
    assert(retire_all(retire_all(m, a), b) =~= retire_all(m, a + b));
}

proof fn lemma_visit_kids_prepend(ch: Map<Seq<char>, Seq<Seq<char>>>, a: Seq<char>, u: Seq<Seq<char>>, fuel: nat)
    ensures
        visit_kids(ch, seq![a] + u, fuel) == visit_kids(ch, u, fuel) + visit_order(ch, a, fuel),
    decreases u.len(),
{
    if u.len() == 0 {
        assert(seq![a] + u =~= seq![a]);
        assert(seq![a].drop_last() =~= Seq::<Seq<char>>::empty());
        assert(visit_kids(ch, Seq::<Seq<char>>::empty(), fuel) == Seq::<Seq<char>>::empty());
        assert(visit_order(ch, a, fuel) + Seq::<Seq<char>>::empty() =~= visit_order(ch, a, fuel));
        assert(Seq::<Seq<char>>::empty() + visit_order(ch, a, fuel) =~= visit_order(ch, a, fuel));
    } else {
        let t = seq![a] + u;
        assert(t.last() == u.last());
        assert(t.drop_last() =~= seq![a] + u.drop_last());
        lemma_visit_kids_prepend(ch, a, u.drop_last(), fuel);
        assert(visit_kids(ch, t, fuel) == visit_order(ch, u.last(), fuel) + visit_kids(ch, t.drop_last(), fuel));
        assert(visit_order(ch, u.last(), fuel) + (visit_kids(ch, u.drop_last(), fuel) + visit_order(ch, a, fuel))
            =~= (visit_order(ch, u.last(), fuel) + visit_kids(ch, u.drop_last(), fuel)) + visit_order(ch, a, fuel));
    }
}

/// Copies a vector of strings.
pub fn clone_strings(v: &Vec<String>) -> (r: Vec<String>)
    ensures
        r@ == v@,
{
    let mut out: Vec<String> = Vec::new();
    let mut i: usize = 0;
    while i < v.len()
        invariant
            i <= v@.len(),
            out@ == v@.take(i as int),
        decreases v@.len() - i,
    {
        out.push(v[i].clone());
        assert(v@.take(i + 1) =~= v@.take(i as int).push(v@[i as int]));
        i += 1;
    }
    assert(v@.take(v@.len() as int) =~= v@);
    out
}

/// Whole minutes (hours with `unit == 3600`) from the instant an RFC 3339
/// text names to `now`, as chrono's `num_minutes`/`num_hours` count them.
pub open spec fn age_in(ts: Seq<char>, now: UtcInstant, unit: int) -> Option<int> {
    match rfc3339_instant(ts) {
        Some((s, n)) => Some(div_toward_zero(whole_seconds_between(now, UtcInstant { secs: s, nanos: n }), unit)),
        None => None,
    }
}

/// An active agent whose last heartbeat is at least `threshold_minutes` old
/// at `now`, or that never sent a readable one.
pub open spec fn is_stale(info: AgentInfo, now: UtcInstant, threshold_minutes: i64) -> bool {
    &&& info.lifecycle == AgentLifecycle::Active
    &&& match info.last_heartbeat_at {
        Some(ts) => match age_in(ts@, now, 60) {
            Some(age) => age >= threshold_minutes,
            None => true,
        },
        None => true,
    }
}

/// A retired agent whose last heartbeat is readable and at least
/// `threshold_hours` old at `now`.
pub open spec fn is_purgeable(info: AgentInfo, now: UtcInstant, threshold_hours: i64) -> bool {
    &&& info.lifecycle == AgentLifecycle::Retired
    &&& match info.last_heartbeat_at {
        Some(ts) => match age_in(ts@, now, 3600) {
            Some(age) => age >= threshold_hours,
            None => false,
        },
        None => false,
    }
}

/// The agent after a heartbeat with `status` at the time written `ts`.
pub open spec fn after_heartbeat(info: AgentInfo, status: AgentStatusSnapshot, ts: String) -> AgentInfo {
    AgentInfo { lifecycle: AgentLifecycle::Active, status: Some(status), last_heartbeat_at: Some(ts), ..info }
}

/// Age in whole `unit`-second steps of the time written in `ts`, if readable.
fn age_of(ts: &str, now: UtcInstant, unit: i128) -> (r: Option<i128>)
    requires
        unit > 0,
    ensures
        r is Some == age_in(ts@, now, unit as int) is Some,
        r matches Some(a) ==> a == age_in(ts@, now, unit as int).unwrap(),
{
    match parse_rfc3339(ts) {
        Some(t) => {
            let secs = seconds_between(now, t);
            let a = if secs >= 0 {
                secs / unit
            } else {
                -((-secs) / unit)
            };
            assert(a == div_toward_zero(whole_seconds_between(now, t), unit as int));
            Some(a)
        },
        None => None,
    }
}

/// Every element of a filtered sequence comes from the sequence.
pub proof fn lemma_filter_from<A>(s: Seq<A>, p: spec_fn(A) -> bool, i: int)
    requires
        0 <= i < s.filter(p).len(),
    ensures
        s.contains(s.filter(p)[i]),
    decreases s.len(),
{
    reveal_with_fuel(Seq::<_>::filter, 1);
    let q = s.drop_last();
    if p(s.last()) && i == s.filter(p).len() - 1 {
        assert(s[s.len() - 1] == s.filter(p)[i]);
    } else {
        assert(s.filter(p)[i] == q.filter(p)[i]);
        lemma_filter_from(q, p, i);
        let j = choose|j: int| 0 <= j < q.len() && q[j] == q.filter(p)[i];
        assert(s[j] == q[j]);
    }
}

/// Whether `s` is one of the strings in `v`.
pub fn contains_str(v: &Vec<String>, s: &str) -> (r: bool)
    ensures
        r == ids_of(v@).contains(s@),
{
    let mut i: usize = 0;
    while i < v.len()
        invariant
            i <= v@.len(),
            forall|j: int| 0 <= j < i ==> v@[j]@ != s@,
        decreases v@.len() - i,
    {
        if crate::text::str_eq(v[i].as_str(), s) {
            assert(ids_of(v@)[i as int] == s@);
            return true;
        }
        i += 1;
    }
    assert(!ids_of(v@).contains(s@)) by {
        if ids_of(v@).contains(s@) {
            let j = choose|j: int| 0 <= j < ids_of(v@).len() && #[trigger] ids_of(v@)[j] == s@;
            assert(v@[j]@ == s@);
        }
    }
    false
}

/// The strings of `v` that are not in `drop`, in order.
pub fn without(v: &Vec<String>, drop: &Vec<String>) -> (r: Vec<String>)
    ensures
        ids_of(r@) == ids_of(v@).filter(|c: Seq<char>| !ids_of(drop@).contains(c)),
{
    let ghost pred = |c: Seq<char>| !ids_of(drop@).contains(c);
    let ghost all = ids_of(v@);
    let mut out: Vec<String> = Vec::new();
    let mut i: usize = 0;
    while i < v.len()
        invariant
            i <= v@.len(),
            all == ids_of(v@),
            pred == (|c: Seq<char>| !ids_of(drop@).contains(c)),
            ids_of(out@) == all.take(i as int).filter(pred),
        decreases v@.len() - i,
    {
        let keep = !contains_str(drop, v[i].as_str());
        assert(keep == pred(all[i as int]));
        let ghost prev = out@;
        if keep {
            out.push(v[i].clone());
            assert(ids_of(out@) =~= ids_of(prev).push(all[i as int]));
        }
        proof {
            let t = all.take(i as int + 1);
            assert(t.drop_last() =~= all.take(i as int));
            reveal_with_fuel(Seq::<_>::filter, 1);
        }
        i += 1;
    }
    assert(all.take(all.len() as int) =~= all);
    out
}

/// Thread-free agent registry with parent/child hierarchy.
pub struct AgentRegistry {
    agents: StrMap<AgentInfo>,
    children: StrMap<Vec<String>>,
    next_id: u64,
    /// Per parent, the number of the last child ID handed out.
    child_next: StrMap<u64>,
    /// No ID in the children lists, and no parent ID with a list, is longer
    /// than this (in characters).
    len_bound: usize,
}

impl AgentRegistry {
    /// The agents by ID.
    pub closed spec fn agents(self) -> Map<Seq<char>, AgentInfo> {
        self.agents@
    }

    /// The agents in the order they were first stored.
    pub closed spec fn agent_seq(self) -> Seq<(Seq<char>, AgentInfo)> {
        self.agents.pairs()
    }

    /// The agents' records, in storage order.
    pub open spec fn agent_list(self) -> Seq<AgentInfo> {
        self.agent_seq().map_values(|p: (Seq<char>, AgentInfo)| p.1)
    }

    /// The agents `get_stale_agents` reports at `now`.
    pub open spec fn stale_agents(self, now: UtcInstant, threshold_minutes: i64) -> Seq<AgentInfo> {
        self.agent_list().filter(|a: AgentInfo| is_stale(a, now, threshold_minutes))
    }

    /// The children lists by parent ID.
    pub closed spec fn children(self) -> Map<Seq<char>, Seq<Seq<char>>> {
        Map::new(
            |k: Seq<char>| self.children@.contains_key(k),
            |k: Seq<char>| self.children@[k]@.map_values(|s: String| s@),
        )
    }

    /// The root-agent counter.
    pub closed spec fn counter(self) -> u64 {
        self.next_id
    }

    /// The child counters by parent ID.
    pub closed spec fn child_counters(self) -> Map<Seq<char>, u64> {
        self.child_next@
    }

    /// The child counter of `parent`.
    pub open spec fn child_counter(self, parent: Seq<char>) -> nat {
        count_of(self.child_counters(), parent)
    }

    /// The IDs in the listing, in order.
    pub open spec fn listed_ids(self) -> Seq<Seq<char>> {
        self.agent_seq().map_values(|p: (Seq<char>, AgentInfo)| p.0)
    }

    pub closed spec fn wf(self) -> bool {
        &&& self.agents.wf()
        &&& self.children.wf()
        &&& self.child_next.wf()
        &&& ids_behind(self.agents@, self.next_id, self.child_next@)
        &&& parents_behind(self.agents@, self.next_id, self.child_next@)
        &&& forall|k: Seq<char>| #[trigger] self.agents@.contains_key(k) ==> self.agents@[k].agent_id@ == k
        &&& lists_bounded(self.children(), self.len_bound as nat)
    }

    /// No ID in use lies ahead of the counters, so the next root ID and the
    /// next child ID of any parent are free.
    pub proof fn law_counters_ahead(self)
        requires
            self.wf(),
        ensures
            ids_behind(self.agents(), self.counter(), self.child_counters()),
            self.counter() < u64::MAX ==> !self.agents().contains_key(root_id((self.counter() + 1) as nat)),
            forall|p: Seq<char>| #![trigger self.child_counter(p)] self.child_counter(p) < u64::MAX ==> !self.agents().contains_key(
                child_id(p, self.child_counter(p) + 1),
            ),
    {
    }

    /// The listing holds each agent once, with its current record, and
    /// nothing else: as many entries as agents, no ID twice, each entry the
    /// record stored under its ID (whose `agent_id` is that ID), and every
    /// agent in it.
    pub proof fn law_listing_is_agents(self)
        requires
            self.wf(),
        ensures
            self.agents().dom().finite(),
            self.agent_seq().len() == self.agents().dom().len(),
            distinct_keys(self.agent_seq()),
            forall|i: int| #![trigger self.agent_seq()[i]] 0 <= i < self.agent_seq().len() ==> self.agents().contains_key(
                self.agent_seq()[i].0,
            ) && self.agents()[self.agent_seq()[i].0] == self.agent_seq()[i].1 && self.agent_seq()[i].1.agent_id@
                == self.agent_seq()[i].0,
            forall|k: Seq<char>| #[trigger] self.agents().contains_key(k) ==> exists|i: int|
                0 <= i < self.agent_seq().len() && #[trigger] self.agent_seq()[i].0 == k,
            forall|k: Seq<char>| #[trigger] self.agents().contains_key(k) ==> self.agents()[k].agent_id@ == k,
            self.agent_list().map_values(|a: AgentInfo| a.agent_id@).no_duplicates(),
    {
        self.agents.lemma_dom();
        assert forall|i: int| #![trigger self.agent_seq()[i]] 0 <= i < self.agent_seq().len() implies self.agents().contains_key(
            self.agent_seq()[i].0,
        ) && self.agents()[self.agent_seq()[i].0] == self.agent_seq()[i].1 by {
            self.agents.lemma_index_of(i);
        }
        assert forall|k: Seq<char>| #[trigger] self.agents().contains_key(k) implies exists|i: int|
            0 <= i < self.agent_seq().len() && #[trigger] self.agent_seq()[i].0 == k by {
            assert(key_set(self.agent_seq()).contains(k));
        }
        let ids = self.agent_list().map_values(|a: AgentInfo| a.agent_id@);
        assert forall|i: int, j: int| 0 <= i < ids.len() && 0 <= j < ids.len() && i != j implies ids[i] != ids[j] by {
            assert(ids[i] == self.agent_seq()[i].1.agent_id@);
            assert(ids[j] == self.agent_seq()[j].1.agent_id@);
        }
    }

    /// The children lists match the agents' parents: every listed child is
    /// an agent whose parent is the list's owner, listed once, and every
    /// agent whose parent is an agent is listed under it.
    pub open spec fn tree_shaped(self) -> bool {
        &&& children_linked(self.agents(), self.children())
        &&& children_complete(self.agents(), self.children())
    }

    /// Every child ID is longer than its parent's ID, as every ID the
    /// registry hands out is.
    pub open spec fn links_grow(self) -> bool {
        ids_grow(self.children())
    }

    /// How deep retiring follows the children lists: past the longest ID
    /// and past the number of parents, so that on lists without a cycle it
    /// reaches every descendant.
    pub closed spec fn retire_fuel(self) -> nat {
        if self.len_bound + 1 >= self.children.entries@.len() {
            (self.len_bound + 1) as nat
        } else {
            self.children.entries@.len()
        }
    }

    /// The order in which retiring `id` visits agents: `id`, then the
    /// subtree of each listed child, the last-listed first, down to the
    /// depth `retire_fuel`.
    pub closed spec fn retire_order(self, id: Seq<char>) -> Seq<Seq<char>> {
        visit_order(self.children(), id, self.retire_fuel())
    }

    /// Retiring an agent retires it and, through the children lists, every
    /// descendant it has; agents outside its subtree keep their state.
    pub proof fn law_retire_cascades(before: Self, after: Self, id: Seq<char>)
        requires
            before.wf(),
            before.links_grow(),
            after.agents() == retire_all(before.agents(), before.retire_order(id)),
        ensures
            before.agents().contains_key(id) ==> after.agents()[id] == before.agents()[id].retired(),
            forall|x: Seq<char>, c: Seq<char>|
                before.retire_order(id).contains(x) && #[trigger] kids_of(before.children(), x).contains(c)
                    && before.agents().contains_key(c) ==> #[trigger] after.agents()[c] == before.agents()[c].retired(),
            forall|k: Seq<char>|
                before.agents().contains_key(k) && !before.retire_order(id).contains(k) ==> #[trigger] after.agents()[k]
                    == before.agents()[k],
            after.agents().dom() == before.agents().dom(),
    {
        lemma_visit_starts(before.children(), id, before.retire_fuel());
        assert forall|x: Seq<char>, c: Seq<char>|
            before.retire_order(id).contains(x) && #[trigger] kids_of(before.children(), x).contains(c)
                && before.agents().contains_key(c) implies #[trigger] after.agents()[c] == before.agents()[c].retired() by {
            lemma_visit_closed(before.children(), id, before.retire_fuel(), before.len_bound as nat, x, c);
        }
        assert(after.agents().dom() =~= before.agents().dom());
    }

    /// Retiring `id` reaches exactly its subtree: `id` itself, every listed
    /// child of an agent it reaches, and nothing that is not `id` or a listed
    /// child of an agent it reaches.
    pub proof fn law_retire_reaches_subtree(self, id: Seq<char>)
        requires
            self.wf(),
            self.links_grow(),
        ensures
            self.retire_order(id).contains(id),
            forall|x: Seq<char>, c: Seq<char>|
                self.retire_order(id).contains(x) && #[trigger] kids_of(self.children(), x).contains(c) ==> self.retire_order(
                    id,
                ).contains(c),
            forall|x: Seq<char>| #[trigger] self.retire_order(id).contains(x) && x != id ==> exists|y: Seq<char>|
                self.retire_order(id).contains(y) && #[trigger] kids_of(self.children(), y).contains(x),
    {
        lemma_visit_starts(self.children(), id, self.retire_fuel());
        assert forall|x: Seq<char>, c: Seq<char>|
            self.retire_order(id).contains(x) && #[trigger] kids_of(self.children(), x).contains(c) implies self.retire_order(
                id,
            ).contains(c) by {
            lemma_visit_closed(self.children(), id, self.retire_fuel(), self.len_bound as nat, x, c);
        }
        assert forall|x: Seq<char>| #[trigger] self.retire_order(id).contains(x) && x != id implies exists|y: Seq<char>|
            self.retire_order(id).contains(y) && #[trigger] kids_of(self.children(), y).contains(x) by {
            lemma_visit_descends(self.children(), id, self.retire_fuel(), x);
        }
    }

    /// The visits of `kids` in retirement order: the last-listed child's
    /// subtree first.
    pub open spec fn retire_kids(self, kids: Seq<Seq<char>>) -> Seq<Seq<char>>
        decreases kids.len(),
    {
        if kids.len() == 0 {
            Seq::empty()
        } else {
            self.retire_order(kids.last()) + self.retire_kids(kids.drop_last())
        }
    }

    /// Retiring `id` visits `id`, then the subtree of each listed child,
    /// the last-listed first; an agent with no children visits itself only.
    pub proof fn law_retire_order_unfolds(self, id: Seq<char>)
        requires
            self.wf(),
            self.links_grow(),
        ensures
            self.retire_order(id) == seq![id] + self.retire_kids(kids_of(self.children(), id)),
    {
        let ch = self.children();
        let kids = kids_of(ch, id);
        assert(forall|i: int| 0 <= i < kids.len() ==> (#[trigger] kids[i]).len() > id.len()) by {
            assert forall|i: int| 0 <= i < kids.len() implies (#[trigger] kids[i]).len() > id.len() by {
                assert(ch.contains_key(id));
                assert(ch[id][i] == kids[i]);
            }
        }
        self.lemma_retire_kids(id, kids);
    }

    proof fn lemma_retire_kids(self, id: Seq<char>, kids: Seq<Seq<char>>)
        requires
            self.wf(),
            self.links_grow(),
            forall|i: int| 0 <= i < kids.len() ==> (#[trigger] kids[i]).len() > id.len(),
        ensures
            visit_kids(self.children(), kids, (self.retire_fuel() - 1) as nat) == self.retire_kids(kids),
        decreases kids.len(),
    {
        if kids.len() > 0 {
            let last = kids.last();
            assert(last == kids[kids.len() - 1]);
            lemma_visit_stable(self.children(), last, (self.retire_fuel() - 1) as nat, self.retire_fuel(), self.len_bound as nat);
            assert forall|i: int| 0 <= i < kids.drop_last().len() implies (#[trigger] kids.drop_last()[i]).len() > id.len() by {
                assert(kids.drop_last()[i] == kids[i]);
            }
            self.lemma_retire_kids(id, kids.drop_last());
        }
    }

    /// Root registrations on a fresh registry list their agents in order:
    /// after `n` of them (each step as `register` states it for a root
    /// agent) the listing holds `n` entries, the `i`-th under `id{i+1}` with
    /// the record registration returned.
    pub proof fn law_root_registrations(regs: Seq<Self>, infos: Seq<AgentInfo>)
        requires
            regs.len() == infos.len() + 1,
            regs[0].agent_seq().len() == 0,
            regs[0].counter() == 0,
            forall|i: int|
                0 <= i < infos.len() ==> #[trigger] regs[i + 1].agent_seq() == regs[i].agent_seq().push(
                    (root_id((regs[i].counter() + 1) as nat), infos[i]),
                ) && regs[i + 1].counter() == regs[i].counter() + 1,
        ensures
            regs[regs.len() - 1].agent_seq().len() == infos.len(),
            forall|i: int| #![trigger regs[regs.len() - 1].agent_seq()[i]]
                0 <= i < infos.len() ==> regs[regs.len() - 1].agent_seq()[i] == (root_id((i + 1) as nat), infos[i]),
        decreases infos.len(),
    {
        if infos.len() > 0 {
            let k = infos.len() - 1;
            let r0 = regs.drop_last();
            let i0 = infos.drop_last();
            assert forall|i: int|
                0 <= i < i0.len() implies #[trigger] r0[i + 1].agent_seq() == r0[i].agent_seq().push(
                    (root_id((r0[i].counter() + 1) as nat), i0[i]),
                ) && r0[i + 1].counter() == r0[i].counter() + 1 by {
                assert(r0[i + 1] == regs[i + 1] && r0[i] == regs[i] && i0[i] == infos[i]);
                assert(regs[i + 1].agent_seq() == regs[i].agent_seq().push(
                    (root_id((regs[i].counter() + 1) as nat), infos[i]),
                ));
            }
            assert(r0[0] == regs[0]);
            Self::law_root_registrations(r0, i0);
            Self::lemma_counter_counts(regs, infos, k);
            assert(regs[k + 1].agent_seq() == regs[k].agent_seq().push((root_id((regs[k].counter() + 1) as nat), infos[k])));
            assert(r0[r0.len() - 1] == regs[k]);
            assert forall|i: int| #![trigger regs[regs.len() - 1].agent_seq()[i]]
                0 <= i < infos.len() implies regs[regs.len() - 1].agent_seq()[i] == (root_id((i + 1) as nat), infos[i]) by {
                if i < k {
                    assert(regs[k].agent_seq()[i] == (root_id((i + 1) as nat), i0[i]));
                }
            }
        }
    }

    proof fn lemma_counter_counts(regs: Seq<Self>, infos: Seq<AgentInfo>, k: int)
        requires
            regs.len() == infos.len() + 1,
            regs[0].counter() == 0,
            forall|i: int|
                0 <= i < infos.len() ==> #[trigger] regs[i + 1].agent_seq() == regs[i].agent_seq().push(
                    (root_id((regs[i].counter() + 1) as nat), infos[i]),
                ) && regs[i + 1].counter() == regs[i].counter() + 1,
            0 <= k < regs.len(),
        ensures
            regs[k].counter() == k,
        decreases k,
    {
        if k > 0 {
            Self::lemma_counter_counts(regs, infos, k - 1);
            let j = k - 1;
            let _ = regs[j + 1].agent_seq();
            assert(regs[j + 1].counter() == regs[j].counter() + 1);
        }
    }

    /// Only active agents are ever stale: every agent reported stale is
    /// active and listed, a retired one never is, and an active agent that
    /// never sent a heartbeat always is.
    pub proof fn law_stale_agents_are_active(self, now: UtcInstant, threshold_minutes: i64)
        ensures
            forall|i: int| 0 <= i < self.stale_agents(now, threshold_minutes).len() ==> (#[trigger] self.stale_agents(
                now,
                threshold_minutes,
            )[i]).lifecycle == AgentLifecycle::Active && self.agent_list().contains(self.stale_agents(now, threshold_minutes)[i]),
            forall|a: AgentInfo| #[trigger] self.agent_list().contains(a) && a.lifecycle == AgentLifecycle::Active
                && a.last_heartbeat_at is None ==> self.stale_agents(now, threshold_minutes).contains(a),
            forall|a: AgentInfo| a.lifecycle == AgentLifecycle::Retired ==> !#[trigger] self.stale_agents(now, threshold_minutes).contains(a),
    {
        let all = self.agent_list();
        let pred = |a: AgentInfo| is_stale(a, now, threshold_minutes);
        let st = all.filter(pred);
        assert forall|i: int| 0 <= i < st.len() implies (#[trigger] st[i]).lifecycle == AgentLifecycle::Active
            && all.contains(st[i]) by {
            all.lemma_filter_pred(pred, i);
            lemma_filter_from(all, pred, i);
        }
        assert forall|a: AgentInfo| #[trigger] all.contains(a) && a.lifecycle == AgentLifecycle::Active
            && a.last_heartbeat_at is None implies st.contains(a) by {
            let j = choose|j: int| 0 <= j < all.len() && all[j] == a;
            all.lemma_filter_contains(pred, j);
        }
        assert forall|a: AgentInfo| a.lifecycle == AgentLifecycle::Retired implies !#[trigger] st.contains(a) by {
            if st.contains(a) {
                let i = choose|i: int| 0 <= i < st.len() && st[i] == a;
                all.lemma_filter_pred(pred, i);
            }
        }
    }

    /// When the children lists match the agents' parents, the agents listed
    /// under `id` that exist are exactly the agents whose parent is `id`,
    /// each listed once; grandchildren are not among them.
    pub proof fn law_children_are_direct(self, id: Seq<char>)
        requires
            self.wf(),
            self.tree_shaped(),
            self.agents().contains_key(id),
        ensures
            kids_of(self.children(), id).no_duplicates(),
            forall|x: Seq<char>|
                #![trigger kids_of(self.children(), id).contains(x)]
                #![trigger self.agents().contains_key(x)]
                (kids_of(self.children(), id).contains(x) && self.agents().contains_key(x)) <==> (self.agents().contains_key(x)
                    && self.agents()[x].parent_id is Some && self.agents()[x].parent_id->0@ == id),
    {
        let ch = self.children();
        if !ch.contains_key(id) {
            assert(kids_of(ch, id) =~= Seq::<Seq<char>>::empty());
        }
        assert forall|x: Seq<char>| kids_of(ch, id).contains(x) implies self.agents().contains_key(x)
            && self.agents()[x].parent_id is Some && self.agents()[x].parent_id->0@ == id by {
            let i = choose|i: int| 0 <= i < kids_of(ch, id).len() && kids_of(ch, id)[i] == x;
            assert(ch[id][i] == x);
        }
    }

    /// When the children lists match the agents' parents, retiring meets
    /// each agent of the subtree once.
    pub proof fn law_retire_once_each(self, id: Seq<char>)
        requires
            self.wf(),
            self.links_grow(),
            self.tree_shaped(),
        ensures
            self.retire_order(id).no_duplicates(),
            self.retire_order(id).filter(|x: Seq<char>| self.agents().contains_key(x)).no_duplicates(),
    {
        lemma_visit_no_dup(self.agents(), self.children(), id, self.retire_fuel());
        lemma_filter_no_dup(self.retire_order(id), |x: Seq<char>| self.agents().contains_key(x));
    }

    /// A heartbeat makes a known agent active again, with the reported
    /// status and the heartbeat's time.
    pub proof fn law_heartbeat_reactivates(before: Self, after: Self, id: Seq<char>, status: AgentStatusSnapshot, ts: String)
        requires
            before.agents().contains_key(id),
            after.agents() == before.agents().insert(id, after_heartbeat(before.agents()[id], status, ts)),
        ensures
            after.agents()[id].lifecycle == AgentLifecycle::Active,
            after.agents()[id].status == Some(status),
            after.agents()[id].last_heartbeat_at == Some(ts),
    {
    }

    /// A heartbeat undoes a retirement: a retired agent that heartbeats is
    /// active again.
    pub proof fn law_heartbeat_after_retire(before: Self, retired: Self, after: Self, id: Seq<char>, status: AgentStatusSnapshot, ts: String)
        requires
            before.wf(),
            before.agents().contains_key(id),
            retired.agents() == retire_all(before.agents(), before.retire_order(id)),
            after.agents() == retired.agents().insert(id, after_heartbeat(retired.agents()[id], status, ts)),
        ensures
            retired.agents()[id].lifecycle == AgentLifecycle::Retired,
            after.agents()[id].lifecycle == AgentLifecycle::Active,
    {
        lemma_visit_starts(before.children(), id, before.retire_fuel());
    }

    /// Loads agents from stored records; every loaded agent starts retired
    /// and must heartbeat or re-register, and every record with a parent
    /// joins its parent's children list. `next_id` is the stored root
    /// counter; the counters are moved past every number a loaded ID or
    /// parent ID uses, so no such ID is handed out again.
    pub fn new(loaded: Vec<AgentInfo>, next_id: u64) -> (reg: Self)
        ensures
            reg.wf(),
            reg.agents() == loaded_agents(loaded@),
            reg.children() == loaded_children(loaded@),
            reg.counter() == loaded_counter(loaded@, next_id),
            reg.child_counters() == loaded_child_counters(loaded@),
            reg.listed_ids() == stored_order(loaded@),
            ids_distinct(loaded@) ==> reg.tree_shaped(),
            (forall|i: int| 0 <= i < loaded@.len() ==> longer_than_parent(#[trigger] loaded@[i])) ==> reg.links_grow(),
    {
        let mut reg = AgentRegistry {
            agents: StrMap::new(),
            children: StrMap::new(),
            next_id,
            child_next: StrMap::new(),
            len_bound: 0,
        };
        proof {
            assert(reg.children() =~= Map::<Seq<char>, Seq<Seq<char>>>::empty());
            assert(reg.agents@ =~= Map::<Seq<char>, AgentInfo>::empty());
            assert(reg.child_next@ =~= Map::<Seq<char>, u64>::empty());
            assert(reg.listed_ids() =~= Seq::<Seq<char>>::empty());
            assert(loaded@.take(0) =~= Seq::<AgentInfo>::empty());
        }
        let mut i: usize = 0;
        while i < loaded.len()
            invariant
                reg.wf(),
                i <= loaded@.len(),
                reg.agents() == loaded_agents(loaded@.take(i as int)),
                reg.children() == loaded_children(loaded@.take(i as int)),
                reg.next_id == loaded_counter(loaded@.take(i as int), next_id),
                reg.child_counters() == loaded_child_counters(loaded@.take(i as int)),
                reg.listed_ids() == stored_order(loaded@.take(i as int)),
                ids_distinct(loaded@) ==> reg.tree_shaped(),
                all_listed(reg.agents(), reg.children()),
                (forall|j: int| 0 <= j < loaded@.len() ==> longer_than_parent(#[trigger] loaded@[j])) ==> reg.links_grow(),
            decreases loaded@.len() - i,
        {
            let ghost it0 = reg;
            let mut info = loaded[i].clone();
            info.lifecycle = AgentLifecycle::Retired;
            let ghost ig = info;
            proof {
                assert(loaded@.take(i + 1).drop_last() =~= loaded@.take(i as int));
                assert(loaded@.take(i + 1).last() == loaded@[i as int]);
            }
            match &info.parent_id {
                Some(pid) => {
                    let ghost ch0 = reg.children();
                    reg.push_child(pid, info.agent_id.clone());
                    proof {
                        if forall|j: int| 0 <= j < loaded@.len() ==> longer_than_parent(#[trigger] loaded@[j]) {
                            assert(longer_than_parent(loaded@[i as int]));
                            assert forall|p: Seq<char>, k: int| #![trigger reg.children()[p][k]]
                                reg.children().contains_key(p) && 0 <= k < reg.children()[p].len() implies reg.children()[p][k].len()
                                > p.len() by {
                                if p == pid@ && k == kids_of(ch0, p).len() {
                                } else {
                                    assert(reg.children()[p][k] == ch0[p][k]);
                                }
                            }
                        }
                    }
                },
                None => {},
            }
            let ghost c0 = reg.next_id;
            let ghost cc0 = reg.child_next@;
            reg.raise_counters(info.agent_id.as_str());
            let ghost c1 = reg.next_id;
            let ghost cc1 = reg.child_next@;
            match &info.parent_id {
                Some(pid) => {
                    reg.raise_counters(pid.as_str());
                },
                None => {},
            }
            proof {
                lemma_raise(c0, cc0, ig.agent_id@);
                if ig.parent_id is Some {
                    lemma_raise(c1, cc1, ig.parent_id->0@);
                    lemma_behind_mono(ig.agent_id@, c1, cc1, reg.next_id, reg.child_next@);
                }
                lemma_behind_insert(reg.agents@, reg.next_id, reg.child_next@, ig.agent_id@, ig);
            }
            let key = info.agent_id.clone();
            let ghost before = reg;
            let ghost id = key@;
            reg.agents.insert(key, info);
            proof {
                assert forall|k: Seq<char>| #[trigger] reg.agents@.contains_key(k) implies reg.agents@[k].agent_id@ == k by {
                    if k != id {
                        assert(before.agents@.contains_key(k));
                    }
                }
                before.agents.lemma_pairs();
                reg.agents.lemma_pairs();
                let prev = before.listed_ids();
                assert(prev.contains(id) == before.agents.has(id)) by {
                    if prev.contains(id) {
                        let j = choose|j: int| 0 <= j < prev.len() && prev[j] == id;
                        assert(before.agents.key_at(j) == id);
                    }
                    if before.agents.has(id) {
                        let j = choose|j: int| 0 <= j < before.agents.entries@.len() && #[trigger] before.agents.key_at(j) == id;
                        assert(prev[j] == id);
                    }
                }
                if before.agents.has(id) {
                    let j = before.agents.index_of(id);
                    before.agents.lemma_index_of(j);
                    assert(reg.listed_ids() =~= prev);
                } else {
                    assert(reg.listed_ids() =~= prev.push(id));
                }
                if ig.parent_id is Some {
                    lemma_push_keeps(it0.children(), ig.parent_id->0@, id);
                    lemma_all_listed_add(it0.agents(), it0.children(), reg.children(), id, ig);
                } else {
                    assert forall|q: Seq<char>, c: Seq<char>| #[trigger] kids_of(it0.children(), q).contains(c) implies #[trigger] kids_of(
                        reg.children(),
                        q,
                    ).contains(c) by {}
                    lemma_all_listed_add(it0.agents(), it0.children(), reg.children(), id, ig);
                }
                if ids_distinct(loaded@) {
                    assert(id == loaded@[i as int].agent_id@);
                    assert(!it0.agents().contains_key(id)) by {
                        if it0.agents().contains_key(id) {
                            lemma_loaded_from(loaded@.take(i as int), id);
                            let j = choose|j: int| 0 <= j < loaded@.take(i as int).len() && loaded@.take(i as int)[j].agent_id@ == id;
                            assert(loaded@[j].agent_id@ == loaded@[i as int].agent_id@);
                        }
                    }
                    if ig.parent_id is Some {
                        lemma_linked_add_child(it0.agents(), it0.children(), id, ig, ig.parent_id->0@);
                    } else {
                        lemma_linked_add_root(it0.agents(), it0.children(), id, ig);
                    }
                }
            }
            i += 1;
        }
        proof {
            assert(loaded@.take(loaded@.len() as int) =~= loaded@);
        }
        reg
    }

    /// The root-agent counter (persisted by the application).
    pub fn next_id(&self) -> (n: u64)
        ensures
            n == self.counter(),
    {
        self.next_id
    }

    /// The child counter of `parent_id` (persisted with the agents' IDs).
    pub fn children_issued(&self, parent_id: &str) -> (n: u64)
        requires
            self.wf(),
        ensures
            n == self.child_counter(parent_id@),
    {
        match self.child_next.get(parent_id) {
            Some(v) => *v,
            None => 0,
        }
    }

    /// Register an agent and return its server-assigned ID.
    /// Every call creates a fresh agent with a unique ID — IDs are never
    /// reused: a root agent gets `id{n}` from the root counter, a sub-agent
    /// of `P` gets `P.{k}` from `P`'s child counter, and both counters only
    /// grow. A sub-agent needs an active parent.
    pub fn register(&mut self, name: &str, kind: &str, parent_id: Option<String>) -> (r: Result<AgentInfo, EnvoyError>)
        requires
            old(self).wf(),
            parent_id is None ==> old(self).counter() < u64::MAX,
            parent_id matches Some(p) ==> old(self).child_counter(p@) < u64::MAX,
        ensures
            final(self).wf(),
            old(self).tree_shaped() ==> final(self).tree_shaped(),
            old(self).links_grow() ==> final(self).links_grow(),
            match parent_id {
                Some(p) => if !old(self).agents().contains_key(p@) {
                    &&& r matches Err(EnvoyError::AgentNotFound(e)) && e@ == p@
                    &&& *final(self) == *old(self)
                } else if old(self).agents()[p@].lifecycle != AgentLifecycle::Active {
                    &&& r matches Err(EnvoyError::AgentOffline(e)) && e@ == p@
                    &&& *final(self) == *old(self)
                } else {
                    let id = child_id(p@, old(self).child_counter(p@) + 1);
                    &&& !old(self).agents().contains_key(id)
                    &&& r matches Ok(info) && fresh_agent(info, id, name@, kind@, parent_id)
                        && final(self).agents() == old(self).agents().insert(id, info)
                        && final(self).agent_seq() == old(self).agent_seq().push((id, info))
                    &&& final(self).children() == old(self).children().insert(p@, kids_of(old(self).children(), p@).push(id))
                    &&& final(self).counter() == old(self).counter()
                    &&& final(self).child_counters() == old(self).child_counters().insert(
                        p@,
                        (old(self).child_counter(p@) + 1) as u64,
                    )
                },
                None => {
                    let id = root_id((old(self).counter() + 1) as nat);
                    &&& !old(self).agents().contains_key(id)
                    &&& r matches Ok(info) && fresh_agent(info, id, name@, kind@, parent_id)
                        && final(self).agents() == old(self).agents().insert(id, info)
                        && final(self).agent_seq() == old(self).agent_seq().push((id, info))
                    &&& final(self).children() == old(self).children()
                    &&& final(self).counter() == old(self).counter() + 1
                    &&& final(self).child_counters() == old(self).child_counters()
                },
            },
    {
        let ghost start = *self;
        let ghost pv: Option<Seq<char>> = if parent_id is Some {
            Some(parent_id->0@)
        } else {
            None
        };
        let (agent_id, number) = match &parent_id {
            Some(pid) => {
                match self.agents.get(pid.as_str()) {
                    None => {
                        return Err(EnvoyError::AgentNotFound(pid.clone()));
                    },
                    Some(parent) => {
                        if parent.lifecycle != AgentLifecycle::Active {
                            return Err(EnvoyError::AgentOffline(pid.clone()));
                        }
                    },
                }
                let k = self.children_issued(pid.as_str()) + 1;
                let mut id = pid.clone();
                push_str(&mut id, ".");
                push_decimal(&mut id, k);
                proof {
                    reveal_strlit(".");
                    assert(id@ =~= child_id(pid@, k as nat));
                }
                (id, k)
            },
            None => {
                self.next_id = self.next_id + 1;
                let mut id = owned("id");
                push_decimal(&mut id, self.next_id);
                proof {
                    reveal_strlit("id");
                    assert(id@ =~= root_id(self.next_id as nat));
                }
                (id, self.next_id)
            },
        };
        let ghost id = agent_id@;
        proof {
            // the new ID is free, and stays behind the counters once they move
            match pv {
                Some(p) => {
                    if start.agents@.contains_key(id) {
                        assert(start.agents@.contains_key(child_id(p, number as nat)));
                    }
                },
                None => {
                    if start.agents@.contains_key(id) {
                        assert(start.agents@.contains_key(root_id(number as nat)));
                    }
                },
            }
        }
        match &parent_id {
            Some(pid) => {
                let ghost cc0 = self.child_next@;
                self.child_next.insert(pid.clone(), number);
                proof {
                    assert forall|q: Seq<char>| count_of(cc0, q) <= #[trigger] count_of(self.child_next@, q) by {}
                }
            },
            None => {},
        }
        let ghost before = *self;
        let info = AgentInfo {
            agent_id: agent_id.clone(),
            name: owned(name),
            kind: owned(kind),
            parent_id: clone_opt(&parent_id),
            lifecycle: AgentLifecycle::Active,
            status: None,
            last_heartbeat_at: None,
        };
        self.agents.insert(agent_id.clone(), info.clone());
        proof {
            assert(!before.agents.has(id));
            assert forall|k: Seq<char>| #[trigger] self.agents@.contains_key(k) implies self.agents@[k].agent_id@ == k by {
                if k != id {
                    assert(before.agents@.contains_key(k));
                }
            }
            assert forall|n: nat| n <= u64::MAX && #[trigger] self.agents@.contains_key(root_id(n)) implies n <= self.next_id by {
                if root_id(n) == id {
                    match pv {
                        Some(p) => {
                            lemma_root_not_child(n, p, number as nat);
                        },
                        None => {
                            lemma_root_ids_distinct(n, number as nat);
                        },
                    }
                } else {
                    assert(start.agents@.contains_key(root_id(n)));
                }
            }
            assert forall|q: Seq<char>, k: nat| k <= u64::MAX && #[trigger] self.agents@.contains_key(child_id(q, k)) implies k
                <= count_of(self.child_next@, q) by {
                if child_id(q, k) == id {
                    match pv {
                        Some(p) => {
                            lemma_child_ids_distinct(q, k, p, number as nat);
                        },
                        None => {
                            lemma_root_not_child(number as nat, q, k);
                        },
                    }
                } else {
                    assert(start.agents@.contains_key(child_id(q, k)));
                    assert(count_of(start.child_next@, q) <= count_of(self.child_next@, q));
                }
            }
        }
        match &parent_id {
            Some(pid) => {
                proof {
                    lemma_decimal_len(number as nat);
                }
                self.push_child(pid, agent_id);
            },
            None => {},
        }
        proof {
            if start.tree_shaped() {
                assert forall|c: Seq<char>| #[trigger] start.agents().contains_key(c) && start.agents()[c].parent_id is Some
                    implies start.agents()[c].parent_id->0@ != id by {
                    let q = start.agents()[c].parent_id->0@;
                    assert(id_behind(q, start.next_id, start.child_next@));
                    if q == id {
                        match pv {
                            Some(p) => {
                                assert(q == child_id(p, number as nat));
                            },
                            None => {
                                assert(q == root_id(number as nat));
                            },
                        }
                    }
                }
                match pv {
                    Some(p) => {
                        lemma_linked_add_child(start.agents(), start.children(), id, info, p);
                        lemma_push_keeps(start.children(), p, id);
                    },
                    None => {
                        lemma_linked_add_root(start.agents(), start.children(), id, info);
                    },
                }
                lemma_complete_add(start.agents(), start.children(), self.children(), id, info);
            }
        }
        Ok(info)
    }

    pub fn get(&self, agent_id: &str) -> (r: Result<AgentInfo, EnvoyError>)
        requires
            self.wf(),
        ensures
            self.agents().contains_key(agent_id@) ==> r == Ok::<AgentInfo, EnvoyError>(self.agents()[agent_id@])
                && self.agents()[agent_id@].agent_id@ == agent_id@,
            !self.agents().contains_key(agent_id@) ==> (r matches Err(EnvoyError::AgentNotFound(e)) && e@ == agent_id@),
    {
        match self.agents.get(agent_id) {
            Some(info) => Ok(info.clone()),
            None => Err(EnvoyError::AgentNotFound(owned(agent_id))),
        }
    }

    /// Whether `from` may send a message to `to`: the sender must exist
    /// and be active, may not write to itself, and the recipient must
    /// exist.
    pub fn check_send(&self, from: &str, to: &str) -> (r: Result<(), EnvoyError>)
        requires
            self.wf(),
        ensures
            !self.agents().contains_key(from@) ==> (r matches Err(EnvoyError::AgentNotFound(e)) && e@ == from@),
            self.agents().contains_key(from@) && self.agents()[from@].lifecycle != AgentLifecycle::Active ==> (r matches Err(
                EnvoyError::AgentOffline(e),
            ) && e@ == from@),
            self.agents().contains_key(from@) && self.agents()[from@].lifecycle == AgentLifecycle::Active && from@
                == to@ ==> (r matches Err(EnvoyError::InvalidMessage(m)) && m@ == "cannot send message to self"@),
            self.agents().contains_key(from@) && self.agents()[from@].lifecycle == AgentLifecycle::Active && from@
                != to@ && !self.agents().contains_key(to@) ==> (r matches Err(EnvoyError::AgentNotFound(e)) && e@ == to@),
            r is Ok <==> (self.agents().contains_key(from@) && self.agents()[from@].lifecycle == AgentLifecycle::Active
                && from@ != to@ && self.agents().contains_key(to@)),
    {
        let sender = self.get(from)?;
        if sender.lifecycle != AgentLifecycle::Active {
            return Err(EnvoyError::AgentOffline(owned(from)));
        }
        if str_eq(from, to) {
            return Err(EnvoyError::InvalidMessage(owned("cannot send message to self")));
        }
        match self.get(to) {
            Ok(_) => Ok(()),
            Err(e) => Err(e),
        }
    }

    /// Whether the agent exists and is active.
    pub fn is_active(&self, agent_id: &str) -> (r: bool)
        requires
            self.wf(),
        ensures
            r == (self.agents().contains_key(agent_id@) && self.agents()[agent_id@].lifecycle == AgentLifecycle::Active),
    {
        match self.agents.get(agent_id) {
            Some(info) => info.lifecycle == AgentLifecycle::Active,
            None => false,
        }
    }

    /// All agents, in the order they were first stored.
    pub fn list_all(&self) -> (r: Vec<AgentInfo>)
        requires
            self.wf(),
        ensures
            r@ == self.agent_seq().map_values(|p: (Seq<char>, AgentInfo)| p.1),
    {
        let mut out: Vec<AgentInfo> = Vec::new();
        let mut i: usize = 0;
        while i < self.agents.len()
            invariant
                i <= self.agents.entries@.len(),
                out@ == self.agent_seq().take(i as int).map_values(|p: (Seq<char>, AgentInfo)| p.1),
            decreases self.agents.entries@.len() - i,
        {
            out.push(self.agents.entries[i].1.clone());
            proof {
                assert(self.agent_seq().take(i + 1).map_values(|p: (Seq<char>, AgentInfo)| p.1) =~= self.agent_seq().take(
                    i as int,
                ).map_values(|p: (Seq<char>, AgentInfo)| p.1).push(self.agents.entries@[i as int].1));
            }
            i += 1;
        }
        proof {
            assert(self.agent_seq().take(self.agents.entries@.len() as int) =~= self.agent_seq());
        }
        out
    }

    /// The active agents, in the order they were first stored.
    pub fn list_active(&self) -> (r: Vec<AgentInfo>)
        requires
            self.wf(),
        ensures
            r@ == self.agent_seq().map_values(|p: (Seq<char>, AgentInfo)| p.1).filter(
                |a: AgentInfo| a.lifecycle == AgentLifecycle::Active,
            ),
    {
        let ghost all = self.agent_seq().map_values(|p: (Seq<char>, AgentInfo)| p.1);
        let ghost pred = |a: AgentInfo| a.lifecycle == AgentLifecycle::Active;
        let mut out: Vec<AgentInfo> = Vec::new();
        let mut i: usize = 0;
        while i < self.agents.len()
            invariant
                i <= self.agents.entries@.len(),
                all == self.agent_seq().map_values(|p: (Seq<char>, AgentInfo)| p.1),
                all.len() == self.agents.entries@.len(),
                pred == (|a: AgentInfo| a.lifecycle == AgentLifecycle::Active),
                out@ == all.take(i as int).filter(pred),
            decreases self.agents.entries@.len() - i,
        {
            let info = &self.agents.entries[i].1;
            assert(all[i as int] == *info);
            if info.lifecycle == AgentLifecycle::Active {
                out.push(info.clone());
            }
            proof {
                let t = all.take(i as int + 1);
                assert(t.drop_last() =~= all.take(i as int));
                reveal_with_fuel(Seq::<_>::filter, 1);
            }
            i += 1;
        }
        proof {
            assert(all.take(all.len() as int) =~= all);
        }
        out
    }

    /// The children of an agent that still exist, in registration order.
    pub fn get_children(&self, agent_id: &str) -> (r: Result<Vec<AgentInfo>, EnvoyError>)
        requires
            self.wf(),
        ensures
            !self.agents().contains_key(agent_id@) ==> (r matches Err(EnvoyError::AgentNotFound(e)) && e@ == agent_id@),
            self.agents().contains_key(agent_id@) ==> (r matches Ok(v) && v@ == existing_agents(
                self.agents(),
                kids_of(self.children(), agent_id@),
            )),
    {
        if !self.agents.contains(agent_id) {
            return Err(EnvoyError::AgentNotFound(owned(agent_id)));
        }
        let mut out: Vec<AgentInfo> = Vec::new();
        match self.children.get(agent_id) {
            None => {
                assert(kids_of(self.children(), agent_id@) =~= Seq::<Seq<char>>::empty());
            },
            Some(kids) => {
                let ghost ks = kids@.map_values(|s: String| s@);
                assert(ks == kids_of(self.children(), agent_id@));
                let mut i: usize = 0;
                while i < kids.len()
                    invariant
                        self.wf(),
                        i <= kids@.len(),
                        ks == kids@.map_values(|s: String| s@),
                        out@ == existing_agents(self.agents(), ks.take(i as int)),
                    decreases kids@.len() - i,
                {
                    proof {
                        assert(ks.take(i + 1).drop_last() =~= ks.take(i as int));
                    }
                    match self.agents.get(kids[i].as_str()) {
                        Some(info) => {
                            out.push(info.clone());
                        },
                        None => {},
                    }
                    i += 1;
                }
                assert(ks.take(kids@.len() as int) =~= ks);
            },
        }
        Ok(out)
    }


    /// Marks agent `id` (if it exists) and its subtree retired, appending the
    /// IDs of the agents met to `affected` in visit order.
    fn retire_from(&mut self, id: &str, affected: &mut Vec<String>, fuel: u128)
        requires
            old(self).wf(),
        ensures
            final(self).wf(),
            final(self).children == old(self).children,
            final(self).len_bound == old(self).len_bound,
            final(self).next_id == old(self).next_id,
            final(self).child_next == old(self).child_next,
            final(self).agents() == retire_all(old(self).agents(), visit_order(old(self).children(), id@, fuel as nat)),
            final(self).agents.entries@.len() == old(self).agents.entries@.len(),
            forall|i: int| 0 <= i < old(self).agents.entries@.len() ==> #[trigger] final(self).agents.key_at(i) == old(self).agents.key_at(i),
            ids_of(final(affected)@) == ids_of(old(affected)@) + visit_order(old(self).children(), id@, fuel as nat).filter(
                |x: Seq<char>| old(self).agents().contains_key(x),
            ),
        decreases fuel,
    {
        let ghost start = *self;
        let ghost aff0 = ids_of(affected@);
        let ghost ch = start.children();
        let ghost a0 = start.agents();
        let ghost in_agents = |x: Seq<char>| a0.contains_key(x);
        match self.agents.find(id) {
            Some(i) => {
                let mut info = self.agents.entries[i].1.clone();
                info.lifecycle = AgentLifecycle::Retired;
                proof {
                    self.agents.lemma_index_of(i as int);
                }
                let ghost before_set = self.agents;
                self.agents.set_value(i, info);
                affected.push(owned(id));
                proof {
                    assert(self.agents.pairs().len() == before_set.pairs().len());
                    assert forall|j: int| 0 <= j < start.agents.entries@.len() implies #[trigger] self.agents.key_at(j) == start.agents.key_at(j) by {
                        assert(self.agents.pairs()[j].0 == self.agents.key_at(j));
                        assert(before_set.pairs()[j].0 == before_set.key_at(j));
                    }
                    assert forall|k: Seq<char>| #[trigger] a0.contains_key(k) implies self.agents@[k] == retire_all(a0, seq![id@])[k] by {
                        if k != id@ {
                            assert(!seq![id@].contains(k)) by {
                                if seq![id@].contains(k) {
                                    let j = choose|j: int| 0 <= j < 1 && seq![id@][j] == k;
                                }
                            }
                        } else {
                            assert(seq![id@][0] == id@);
                        }
                    }
                    assert(self.agents@ =~= retire_all(a0, seq![id@]));
                    assert(ids_of(affected@) =~= aff0 + seq![id@].filter(in_agents)) by {
                        reveal_with_fuel(Seq::<_>::filter, 2);
                        assert(seq![id@].drop_last() =~= Seq::<Seq<char>>::empty());
                    }
                }
            },
            None => {
                proof {
                    assert forall|k: Seq<char>| #[trigger] a0.contains_key(k) implies self.agents@[k] == retire_all(a0, seq![id@])[k] by {
                        assert(k != id@);
                        assert(!seq![id@].contains(k)) by {
                            if seq![id@].contains(k) {
                                let j = choose|j: int| 0 <= j < 1 && seq![id@][j] == k;
                            }
                        }
                    }
                    assert(self.agents@ =~= retire_all(a0, seq![id@]));
                    assert(ids_of(affected@) =~= aff0 + seq![id@].filter(in_agents)) by {
                        reveal_with_fuel(Seq::<_>::filter, 2);
                        assert(seq![id@].drop_last() =~= Seq::<Seq<char>>::empty());
                    }
                }
            },
        }
        proof {
            assert forall|k: Seq<char>| #[trigger] self.agents@.contains_key(k) implies self.agents@[k].agent_id@ == k by {}
        }
        if fuel == 0 {
            proof {
                assert(visit_order(start.children(), id@, 0) == seq![id@]);
            }
            return;
        }
        let kids = match self.children.get(id) {
            Some(v) => clone_strings(v),
            None => Vec::new(),
        };
        let ghost ks = ids_of(kids@);
        proof {
            if ch.contains_key(id@) {
                assert(ks == ch[id@]);
            } else {
                assert(ks =~= Seq::<Seq<char>>::empty());
            }
            assert(ks == kids_of(ch, id@));
        }
        let n = kids.len();
        let mut k = n;
        while k > 0
            invariant
                self.wf(),
                self.children == start.children,
                self.len_bound == start.len_bound,
                self.next_id == start.next_id,
                self.child_next == start.child_next,
                ch == self.children(),
                a0 == start.agents(),
                in_agents == (|x: Seq<char>| a0.contains_key(x)),
                k <= n,
                n == kids@.len(),
                ks == ids_of(kids@),
                ks == kids_of(ch, id@),
                fuel >= 1,
                self.agents() == retire_all(a0, seq![id@] + visit_kids(ch, ks.subrange(k as int, n as int), (fuel - 1) as nat)),
                self.agents.entries@.len() == start.agents.entries@.len(),
                forall|i: int| 0 <= i < start.agents.entries@.len() ==> #[trigger] self.agents.key_at(i) == start.agents.key_at(i),
                ids_of(affected@) == aff0 + seq![id@].filter(in_agents) + visit_kids(ch, ks.subrange(k as int, n as int), (fuel - 1) as nat).filter(in_agents),
            decreases k,
        {
            k -= 1;
            let ghost before = *self;
            let ghost aff_before = ids_of(affected@);
            proof {
                assert(kids@[k as int]@ == ks[k as int]);
            }
            self.retire_from(kids[k].as_str(), affected, fuel - 1);
            proof {
                let f1 = (fuel - 1) as nat;
                let kid = ks[k as int];
                let done = ks.subrange(k + 1, n as int);
                assert(ks.subrange(k as int, n as int) =~= seq![kid] + done);
                lemma_visit_kids_prepend(ch, kid, done, f1);
                let prefix = seq![id@] + visit_kids(ch, done, f1);
                assert(before.agents() == retire_all(a0, prefix));
                assert(before.agents().dom() =~= a0.dom());
                lemma_retire_all_compose(a0, prefix, visit_order(ch, kid, f1));
                assert(prefix + visit_order(ch, kid, f1) =~= seq![id@] + visit_kids(ch, ks.subrange(k as int, n as int), f1));
                let in_before = |x: Seq<char>| before.agents().contains_key(x);
                assert(visit_order(ch, kid, f1).filter(in_before) == visit_order(ch, kid, f1).filter(in_agents)) by {
                    assert(in_before =~= in_agents);
                }
                Seq::filter_distributes_over_add(visit_kids(ch, done, f1), visit_order(ch, kid, f1), in_agents);
                assert(ids_of(affected@) =~= aff0 + seq![id@].filter(in_agents) + visit_kids(ch, ks.subrange(k as int, n as int), f1).filter(in_agents));
                assert forall|kk: Seq<char>| #[trigger] self.agents@.contains_key(kk) implies self.agents@[kk].agent_id@ == kk by {
                    assert(before.agents@.contains_key(kk));
                }
            }
        }
        proof {
            let f1 = (fuel - 1) as nat;
            assert(ks.subrange(0, n as int) =~= ks);
            assert(visit_order(ch, id@, fuel as nat) == seq![id@] + visit_kids(ch, ks, f1));
            Seq::filter_distributes_over_add(seq![id@], visit_kids(ch, ks, f1), in_agents);
            assert(ids_of(affected@) =~= aff0 + visit_order(ch, id@, fuel as nat).filter(in_agents));
        }
    }

    /// Retire an agent and all descendants. Retired IDs are never reused.
    /// Returns the IDs of the affected agents, in visit order. Stored parent
    /// links that run in a circle are followed no deeper than
    /// `retire_fuel`, so a retirement always ends.
    pub fn retire(&mut self, agent_id: &str) -> (r: Result<Vec<String>, EnvoyError>)
        requires
            old(self).wf(),
        ensures
            final(self).wf(),
            final(self).children() == old(self).children(),
            final(self).counter() == old(self).counter(),
            final(self).child_counters() == old(self).child_counters(),
            final(self).listed_ids() == old(self).listed_ids(),
            old(self).tree_shaped() ==> final(self).tree_shaped(),
            old(self).links_grow() ==> final(self).links_grow(),
            !old(self).agents().contains_key(agent_id@) ==> (r matches Err(EnvoyError::AgentNotFound(e)) && e@ == agent_id@)
                && *final(self) == *old(self),
            old(self).agents().contains_key(agent_id@) ==> (r matches Ok(v) && ids_of(v@) == old(self).retire_order(
                agent_id@,
            ).filter(|x: Seq<char>| old(self).agents().contains_key(x)))
                && final(self).agents() == retire_all(old(self).agents(), old(self).retire_order(agent_id@)),
    {
        if !self.agents.contains(agent_id) {
            return Err(EnvoyError::AgentNotFound(owned(agent_id)));
        }
        let ghost start = *self;
        let mut affected: Vec<String> = Vec::new();
        let depth: u128 = self.len_bound as u128 + 1;
        let parents: u128 = self.children.len() as u128;
        let fuel = if depth >= parents { depth } else { parents };
        assert(fuel == start.retire_fuel());
        self.retire_from(agent_id, &mut affected, fuel);
        proof {
            assert(ids_of(Seq::<String>::empty()) =~= Seq::<Seq<char>>::empty());
            assert(ids_of(affected@) =~= start.retire_order(agent_id@).filter(|x: Seq<char>| start.agents().contains_key(x)));
            assert forall|j: int| 0 <= j < start.agents.entries@.len() implies #[trigger] self.agent_seq()[j].0 == start.agent_seq()[j].0 by {
                assert(self.agents.key_at(j) == start.agents.key_at(j));
            }
            assert(self.listed_ids() =~= start.listed_ids());
        }
        Ok(affected)
    }

    /// Disconnect agent — marks agent and descendants as Retired.
    pub fn disconnect(&mut self, agent_id: &str) -> (r: Result<Vec<String>, EnvoyError>)
        requires
            old(self).wf(),
        ensures
            final(self).wf(),
            final(self).children() == old(self).children(),
            final(self).counter() == old(self).counter(),
            final(self).child_counters() == old(self).child_counters(),
            final(self).listed_ids() == old(self).listed_ids(),
            old(self).tree_shaped() ==> final(self).tree_shaped(),
            old(self).links_grow() ==> final(self).links_grow(),
            !old(self).agents().contains_key(agent_id@) ==> (r matches Err(EnvoyError::AgentNotFound(e)) && e@ == agent_id@)
                && *final(self) == *old(self),
            old(self).agents().contains_key(agent_id@) ==> (r matches Ok(v) && ids_of(v@) == old(self).retire_order(
                agent_id@,
            ).filter(|x: Seq<char>| old(self).agents().contains_key(x)))
                && final(self).agents() == retire_all(old(self).agents(), old(self).retire_order(agent_id@)),
    {
        self.retire(agent_id)
    }


    /// Record a heartbeat written at `timestamp`, updating the agent's
    /// status snapshot; the agent becomes active again.
    pub fn heartbeat_at(&mut self, agent_id: &str, status: AgentStatusSnapshot, timestamp: String) -> (r: Result<(), EnvoyError>)
        requires
            old(self).wf(),
        ensures
            final(self).wf(),
            final(self).children() == old(self).children(),
            final(self).counter() == old(self).counter(),
            final(self).child_counters() == old(self).child_counters(),
            final(self).listed_ids() == old(self).listed_ids(),
            old(self).tree_shaped() ==> final(self).tree_shaped(),
            old(self).links_grow() ==> final(self).links_grow(),
            !old(self).agents().contains_key(agent_id@) ==> (r matches Err(EnvoyError::AgentNotFound(e)) && e@ == agent_id@)
                && *final(self) == *old(self),
            old(self).agents().contains_key(agent_id@) ==> r is Ok && final(self).agents() == old(self).agents().insert(
                agent_id@,
                after_heartbeat(old(self).agents()[agent_id@], status, timestamp),
            ),
    {
        match self.agents.find(agent_id) {
            None => Err(EnvoyError::AgentNotFound(owned(agent_id))),
            Some(i) => {
                proof {
                    self.agents.lemma_index_of(i as int);
                }
                let mut info = self.agents.entries[i].1.clone();
                info.lifecycle = AgentLifecycle::Active;
                info.status = Some(status);
                info.last_heartbeat_at = Some(timestamp);
                let ghost before = *self;
                self.agents.set_value(i, info);
                proof {
                    assert(self.listed_ids() =~= before.listed_ids());
                    assert forall|k: Seq<char>| #[trigger] self.agents@.contains_key(k) implies self.agents@[k].agent_id@ == k by {
                        if k != agent_id@ {
                            assert(before.agents@.contains_key(k));
                        }
                    }
                }
                Ok(())
            },
        }
    }

    /// Record a heartbeat now, updating the agent's status snapshot and
    /// timestamp; the agent becomes active again.
    pub fn heartbeat(&mut self, agent_id: &str, status: AgentStatusSnapshot) -> (r: Result<(), EnvoyError>)
        requires
            old(self).wf(),
        ensures
            final(self).wf(),
            final(self).children() == old(self).children(),
            final(self).counter() == old(self).counter(),
            final(self).child_counters() == old(self).child_counters(),
            final(self).listed_ids() == old(self).listed_ids(),
            old(self).tree_shaped() ==> final(self).tree_shaped(),
            old(self).links_grow() ==> final(self).links_grow(),
            !old(self).agents().contains_key(agent_id@) ==> (r matches Err(EnvoyError::AgentNotFound(e)) && e@ == agent_id@)
                && *final(self) == *old(self),
            old(self).agents().contains_key(agent_id@) ==> r is Ok && exists|ts: String, t: UtcInstant|
                #![trigger rfc3339_text(t.secs, t.nanos), after_heartbeat(old(self).agents()[agent_id@], status, ts)]
                ts@ == rfc3339_text(t.secs, t.nanos) && final(self).agents() == old(self).agents().insert(
                    agent_id@,
                    after_heartbeat(old(self).agents()[agent_id@], status, ts),
                ),
    {
        let (t, ts) = now_rfc3339();
        let ghost tsv = ts;
        let r = self.heartbeat_at(agent_id, status, ts);
        proof {
            if old(self).agents().contains_key(agent_id@) {
                assert(tsv@ == rfc3339_text(t.secs, t.nanos));
                assert(final(self).agents() == old(self).agents().insert(agent_id@, after_heartbeat(old(self).agents()[agent_id@], status, tsv)));
            }
        }
        r
    }

    /// Active agents whose last heartbeat is older than `threshold_minutes`
    /// at `now` (or that never sent one), in storage order.
    pub fn get_stale_agents_at(&self, threshold_minutes: i64, now: UtcInstant) -> (r: Vec<AgentInfo>)
        requires
            self.wf(),
        ensures
            r@ == self.stale_agents(now, threshold_minutes),
            forall|i: int| 0 <= i < r@.len() ==> (#[trigger] r@[i]).lifecycle == AgentLifecycle::Active,
    {
        proof {
            self.law_stale_agents_are_active(now, threshold_minutes);
        }
        let ghost all = self.agent_seq().map_values(|p: (Seq<char>, AgentInfo)| p.1);
        let ghost pred = |a: AgentInfo| is_stale(a, now, threshold_minutes);
        let mut out: Vec<AgentInfo> = Vec::new();
        let mut i: usize = 0;
        while i < self.agents.len()
            invariant
                i <= self.agents.entries@.len(),
                all == self.agent_seq().map_values(|p: (Seq<char>, AgentInfo)| p.1),
                all.len() == self.agents.entries@.len(),
                pred == (|a: AgentInfo| is_stale(a, now, threshold_minutes)),
                out@ == all.take(i as int).filter(pred),
            decreases self.agents.entries@.len() - i,
        {
            let info = &self.agents.entries[i].1;
            assert(all[i as int] == *info);
            let stale = if info.lifecycle != AgentLifecycle::Active {
                false
            } else {
                match &info.last_heartbeat_at {
                    Some(ts) => match age_of(ts.as_str(), now, 60) {
                        Some(age) => age >= threshold_minutes as i128,
                        None => true,
                    },
                    None => true,
                }
            };
            assert(stale == pred(*info));
            if stale {
                out.push(info.clone());
            }
            proof {
                let t = all.take(i as int + 1);
                assert(t.drop_last() =~= all.take(i as int));
                reveal_with_fuel(Seq::<_>::filter, 1);
            }
            i += 1;
        }
        proof {
            assert(all.take(all.len() as int) =~= all);
        }
        out
    }

    /// Return active agents whose last heartbeat is older than threshold_minutes.
    pub fn get_stale_agents(&self, threshold_minutes: i64) -> (r: Vec<AgentInfo>)
        requires
            self.wf(),
        ensures
            exists|now: UtcInstant| r@ == #[trigger] self.stale_agents(now, threshold_minutes),
            forall|i: int| 0 <= i < r@.len() ==> (#[trigger] r@[i]).lifecycle == AgentLifecycle::Active,
    {
        let now = utc_now();
        self.get_stale_agents_at(threshold_minutes, now)
    }


    /// Whether the agent `k` exists and is purgeable at `now`.
    pub open spec fn purged_at(self, k: Seq<char>, now: UtcInstant, threshold_hours: i64) -> bool {
        self.agents().contains_key(k) && is_purgeable(self.agents()[k], now, threshold_hours)
    }

    /// Remove retired agents whose last heartbeat is at least
    /// `threshold_hours` old at `now`, with their children lists and their
    /// places in other lists. Returns the number of purged agents.
    pub fn purge_retired_at(&mut self, threshold_hours: i64, now: UtcInstant) -> (r: usize)
        requires
            old(self).wf(),
        ensures
            final(self).wf(),
            final(self).counter() == old(self).counter(),
            final(self).child_counters() == old(self).child_counters(),
            old(self).tree_shaped() ==> final(self).tree_shaped(),
            old(self).links_grow() ==> final(self).links_grow(),
            final(self).agents() == Map::new(
                |k: Seq<char>| old(self).agents().contains_key(k) && !old(self).purged_at(k, now, threshold_hours),
                |k: Seq<char>| old(self).agents()[k],
            ),
            final(self).children() == Map::new(
                |k: Seq<char>| old(self).children().contains_key(k) && !old(self).purged_at(k, now, threshold_hours),
                |k: Seq<char>| old(self).children()[k].filter(|c: Seq<char>| !old(self).purged_at(c, now, threshold_hours)),
            ),
            r == old(self).agents().dom().len() - final(self).agents().dom().len(),
    {
        let ghost start = *self;
        // the IDs to purge, in storage order
        let mut doomed: Vec<String> = Vec::new();
        let mut i: usize = 0;
        while i < self.agents.len()
            invariant
                *self == start,
                self.wf(),
                i <= self.agents.entries@.len(),
                forall|x: Seq<char>| #[trigger] ids_of(doomed@).contains(x) <==> (exists|j: int| 0 <= j < i && self.agents.key_at(j) == x
                    && is_purgeable(self.agents.entries@[j].1, now, threshold_hours)),
            decreases self.agents.entries@.len() - i,
        {
            let info = &self.agents.entries[i].1;
            let purge = if info.lifecycle != AgentLifecycle::Retired {
                false
            } else {
                match &info.last_heartbeat_at {
                    Some(ts) => match age_of(ts.as_str(), now, 3600) {
                        Some(age) => age >= threshold_hours as i128,
                        None => false,
                    },
                    None => false,
                }
            };
            assert(purge == is_purgeable(self.agents.entries@[i as int].1, now, threshold_hours));
            let ghost prev = doomed@;
            if purge {
                doomed.push(self.agents.entries[i].0.clone());
            }
            proof {
                assert forall|x: Seq<char>| #[trigger] ids_of(doomed@).contains(x) <==> (exists|j: int| 0 <= j < i + 1 && self.agents.key_at(j) == x
                    && is_purgeable(self.agents.entries@[j].1, now, threshold_hours)) by {
                    if purge {
                        assert(ids_of(doomed@) =~= ids_of(prev).push(self.agents.key_at(i as int)));
                        if ids_of(doomed@).contains(x) {
                            let a = choose|a: int| 0 <= a < ids_of(doomed@).len() && #[trigger] ids_of(doomed@)[a] == x;
                            if a < prev.len() {
                                assert(ids_of(prev)[a] == x);
                            }
                        }
                        if ids_of(prev).contains(x) {
                            let a = choose|a: int| 0 <= a < ids_of(prev).len() && #[trigger] ids_of(prev)[a] == x;
                            assert(ids_of(doomed@)[a] == x);
                        }
                        if x == self.agents.key_at(i as int) {
                            assert(ids_of(doomed@)[prev.len() as int] == x);
                        }
                    } else {
                        assert(ids_of(doomed@) == ids_of(prev));
                    }
                }
            }
            i += 1;
        }
        let ghost dset = ids_of(doomed@).to_set();
        proof {
            assert forall|x: Seq<char>| #[trigger] start.purged_at(x, now, threshold_hours) == ids_of(doomed@).contains(x)
                && dset.contains(x) == ids_of(doomed@).contains(x) by {
                assert(ids_of(doomed@).contains(x) == dset.contains(x));
                if ids_of(doomed@).contains(x) {
                    let j = choose|j: int| 0 <= j < start.agents.entries@.len() && start.agents.key_at(j) == x
                        && is_purgeable(start.agents.entries@[j].1, now, threshold_hours);
                    start.agents.lemma_index_of(j);
                }
                if start.purged_at(x, now, threshold_hours) {
                    let j = start.agents.index_of(x);
                    start.agents.lemma_index_of(j);
                }
            }
        }
        self.children.remove_all(&doomed);
        let ghost mid = self.children;
        let mut c: usize = 0;
        while c < self.children.len()
            invariant
                self.agents == start.agents,
                self.next_id == start.next_id,
                self.child_next == start.child_next,
                self.len_bound == start.len_bound,
                self.children.wf(),
                c <= self.children.entries@.len(),
                self.children.entries@.len() == mid.entries@.len(),
                forall|j: int| 0 <= j < mid.entries@.len() ==> #[trigger] self.children.key_at(j) == mid.key_at(j),
                forall|j: int| 0 <= j < mid.entries@.len() ==> #[trigger] ids_of(self.children.entries@[j].1@) == if j < c {
                    ids_of(mid.entries@[j].1@).filter(|x: Seq<char>| !ids_of(doomed@).contains(x))
                } else {
                    ids_of(mid.entries@[j].1@)
                },
            decreases self.children.entries@.len() - c,
        {
            let kept = without(&self.children.entries[c].1, &doomed);
            let ghost prev = self.children;
            self.children.set_value(c, kept);
            proof {
                assert(self.children.pairs().len() == self.children.entries@.len());
                assert(prev.pairs().len() == prev.entries@.len());
                assert forall|j: int| 0 <= j < mid.entries@.len() implies #[trigger] self.children.key_at(j) == mid.key_at(j) by {
                    assert(self.children.pairs()[j].0 == self.children.key_at(j));
                    assert(prev.pairs()[j].0 == prev.key_at(j));
                }
                assert forall|j: int| 0 <= j < mid.entries@.len() implies #[trigger] self.children.entries@[j].1 == if j == c {
                    kept
                } else {
                    prev.entries@[j].1
                } by {
                    assert(self.children.pairs()[j].1 == self.children.entries@[j].1);
                    assert(prev.pairs()[j].1 == prev.entries@[j].1);
                }
            }
            c += 1;
        }
        proof {
            // the children map after filtering the lists
            let pred = |x: Seq<char>| !ids_of(doomed@).contains(x);
            assert forall|k: Seq<char>| #[trigger] self.children().contains_key(k) == (start.children().contains_key(k)
                && !start.purged_at(k, now, threshold_hours)) by {
                if self.children@.contains_key(k) {
                    let j = self.children.index_of(k);
                    self.children.lemma_index_of(j);
                    mid.lemma_index_of(j);
                }
                if mid@.contains_key(k) {
                    let j = mid.index_of(k);
                    mid.lemma_index_of(j);
                    self.children.lemma_index_of(j);
                }
            }
            assert forall|k: Seq<char>| #[trigger] self.children().contains_key(k) implies self.children()[k]
                == start.children()[k].filter(|c: Seq<char>| !start.purged_at(c, now, threshold_hours)) by {
                let j = self.children.index_of(k);
                self.children.lemma_index_of(j);
                mid.lemma_index_of(j);
                assert(mid@.contains_key(k));
                assert(mid@[k] == start.children@[k]);
                assert(pred =~= (|c: Seq<char>| !start.purged_at(c, now, threshold_hours)));
                assert(ids_of(self.children.entries@[j].1@) == ids_of(mid.entries@[j].1@).filter(pred));
            }
            assert(self.children() =~= Map::new(
                |k: Seq<char>| start.children().contains_key(k) && !start.purged_at(k, now, threshold_hours),
                |k: Seq<char>| start.children()[k].filter(|c: Seq<char>| !start.purged_at(c, now, threshold_hours)),
            ));
            // the lists still satisfy the length bounds
            assert forall|p: Seq<char>, i: int| #![trigger self.children()[p][i]]
                self.children().contains_key(p) && 0 <= i < self.children()[p].len()
                    implies self.children()[p][i].len() <= self.len_bound && (start.links_grow()
                    ==> self.children()[p][i].len() > p.len()) by {
                let f = |c: Seq<char>| !start.purged_at(c, now, threshold_hours);
                lemma_filter_from(start.children()[p], f, i);
                let m = choose|m: int| 0 <= m < start.children()[p].len() && start.children()[p][m] == self.children()[p][i];
                assert(start.children()[p][m].len() <= self.len_bound);
                if start.links_grow() {
                    assert(start.children()[p][m].len() > p.len());
                }
            }
        }
        let before = self.agents.len();
        self.agents.remove_all(&doomed);
        proof {
            assert(self.agents@ =~= Map::new(
                |k: Seq<char>| start.agents().contains_key(k) && !start.purged_at(k, now, threshold_hours),
                |k: Seq<char>| start.agents()[k],
            ));
            self.agents.lemma_dom();
            start.agents.lemma_dom();
            vstd::set_lib::lemma_len_subset(self.agents@.dom(), start.agents@.dom());
            lemma_ids_behind_kept(start.agents@, self.agents@, self.next_id, self.child_next@);
            if start.tree_shaped() {
                let ch0 = start.children();
                let ch2 = self.children();
                let keep = |c: Seq<char>| !start.purged_at(c, now, threshold_hours);
                assert forall|p: Seq<char>, i: int| #![trigger ch2[p][i]] ch2.contains_key(p) && 0 <= i < ch2[p].len() implies self.agents().contains_key(
                    ch2[p][i],
                ) && self.agents()[ch2[p][i]].parent_id is Some && self.agents()[ch2[p][i]].parent_id->0@ == p by {
                    assert(ch2[p] == ch0[p].filter(keep));
                    lemma_filter_from(ch0[p], keep, i);
                    ch0[p].lemma_filter_pred(keep, i);
                    let m = choose|m: int| 0 <= m < ch0[p].len() && ch0[p][m] == ch2[p][i];
                    assert(start.agents().contains_key(ch0[p][m]));
                }
                assert forall|p: Seq<char>| #[trigger] ch2.contains_key(p) implies ch2[p].no_duplicates() by {
                    lemma_filter_no_dup(ch0[p], keep);
                }
            }
            assert forall|k: Seq<char>| #[trigger] self.agents@.contains_key(k) implies self.agents@[k].agent_id@ == k by {}
        }
        before - self.agents.len()
    }

    /// Remove retired agents that haven't heartbeated in `threshold_hours`+
    /// hours. Returns the number of purged agents.
    pub fn purge_retired(&mut self, threshold_hours: i64) -> (r: usize)
        requires
            old(self).wf(),
        ensures
            final(self).wf(),
            final(self).counter() == old(self).counter(),
            final(self).child_counters() == old(self).child_counters(),
            old(self).tree_shaped() ==> final(self).tree_shaped(),
            old(self).links_grow() ==> final(self).links_grow(),
            exists|now: UtcInstant| #[trigger] old(self).purge_outcome(*final(self), now, threshold_hours),
            r == old(self).agents().dom().len() - final(self).agents().dom().len(),
    {
        let now = utc_now();
        let r = self.purge_retired_at(threshold_hours, now);
        assert(old(self).purge_outcome(*self, now, threshold_hours));
        r
    }

    /// `after` is this registry purged at `now`.
    pub open spec fn purge_outcome(self, after: Self, now: UtcInstant, threshold_hours: i64) -> bool {
        &&& after.agents() == Map::new(
            |k: Seq<char>| self.agents().contains_key(k) && !self.purged_at(k, now, threshold_hours),
            |k: Seq<char>| self.agents()[k],
        )
        &&& after.children() == Map::new(
            |k: Seq<char>| self.children().contains_key(k) && !self.purged_at(k, now, threshold_hours),
            |k: Seq<char>| self.children()[k].filter(|c: Seq<char>| !self.purged_at(c, now, threshold_hours)),
        )
    }

    /// Raises the counters past the numbers `id` carries.
    fn raise_counters(&mut self, id: &str)
        requires
            old(self).wf(),
        ensures
            final(self).wf(),
            final(self).agents == old(self).agents,
            final(self).children == old(self).children,
            final(self).len_bound == old(self).len_bound,
            final(self).next_id == raise_root(old(self).next_id, id@),
            final(self).child_next@ == raise_child(old(self).child_next@, id@),
    {
        let ghost c0 = self.next_id;
        let ghost cc0 = self.child_next@;
        match root_number_of(id) {
            Some(n) => {
                if n > self.next_id {
                    self.next_id = n;
                }
            },
            None => {},
        }
        match child_number_of(id) {
            Some((p, k)) => {
                let cur: u64 = match self.child_next.get(p.as_str()) {
                    Some(v) => *v,
                    None => 0,
                };
                assert(cur == count_of(cc0, p@));
                if k > cur {
                    self.child_next.insert(p, k);
                }
            },
            None => {},
        }
        proof {
            assert(self.child_next@ =~= raise_child(cc0, id@));
            lemma_raise(c0, cc0, id@);
            lemma_all_behind_mono(self.agents@, c0, cc0, self.next_id, self.child_next@);
        }
    }

    /// Appends `child` to the children list of `parent`, creating the list.
    fn push_child(&mut self, parent: &String, child: String)
        requires
            old(self).wf(),
        ensures
            final(self).wf(),
            final(self).agents == old(self).agents,
            final(self).next_id == old(self).next_id,
            final(self).child_next == old(self).child_next,
            final(self).children() == old(self).children().insert(
                parent@,
                kids_of(old(self).children(), parent@).push(child@),
            ),
            final(self).children.entries@.len() <= old(self).children.entries@.len() + 1,
    {
        let ghost before = *self;
        let ghost cl = child@;
        let cn = chars_of(child.as_str()).len();
        let pn = chars_of(parent.as_str()).len();
        let mut kids = match self.children.get(parent.as_str()) {
            Some(v) => v.clone(),
            None => Vec::new(),
        };
        proof {
            if before.children@.contains_key(parent@) {
                assert(kids@.map_values(|s: String| s@) =~= before.children()[parent@]);
            } else {
                assert(kids@.map_values(|s: String| s@) =~= Seq::<Seq<char>>::empty());
            }
        }
        kids.push(child);
        let ghost new_kids = kids@.map_values(|s: String| s@);
        assert(new_kids =~= kids_of(before.children(), parent@).push(cl));
        self.children.insert(parent.clone(), kids);
        if cn > self.len_bound {
            self.len_bound = cn;
        }
        if pn > self.len_bound {
            self.len_bound = pn;
        }
        proof {
            assert(self.children() =~= before.children().insert(parent@, new_kids));
            assert forall|p: Seq<char>, i: int| #![trigger self.children()[p][i]]
                self.children().contains_key(p) && 0 <= i < self.children()[p].len()
                    implies self.children()[p][i].len() <= self.len_bound by {
                if p == parent@ {
                    if i < new_kids.len() - 1 {
                        assert(self.children()[p][i] == before.children()[p][i]);
                    }
                } else {
                    assert(self.children()[p][i] == before.children()[p][i]);
                }
            }
            before.children.lemma_dom();
            self.children.lemma_dom();
            assert(self.children@.dom() =~= before.children@.dom().insert(parent@));
        }
    }
}

} // verus!
