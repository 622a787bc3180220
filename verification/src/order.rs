//! Stable ordering of stored records by a numeric key, as `sort_by_key`
//! orders them, kept as positions into the records.

use vstd::prelude::*;

verus! {

/// The keys as integers.
pub open spec fn int_keys(keys: Seq<i128>) -> Seq<int> {
    keys.map_values(|k: i128| k as int)
}

/// Positions as integers.
pub open spec fn int_positions(ps: Seq<usize>) -> Seq<int> {
    ps.map_values(|p: usize| p as int)
}

/// Whether key `a` may stand before key `b` (ascending, or descending).
pub open spec fn in_order(a: int, b: int, desc: bool) -> bool {
    if desc {
        a >= b
    } else {
        a <= b
    }
}

/// Where a record of key `k` goes in `s`: after every record it does not
/// come before.
pub open spec fn ins_pos_by(s: Seq<int>, keys: Seq<int>, k: int, desc: bool) -> int
    decreases s.len(),
{
    if s.len() == 0 {
        0
    } else if !in_order(keys[s[0]], k, desc) {
        0
    } else {
        1 + ins_pos_by(s.drop_first(), keys, k, desc)
    }
}

/// Positions ordered by key, records of equal keys in their given order (a
/// stable sort).
pub open spec fn sort_positions(ps: Seq<int>, keys: Seq<int>, desc: bool) -> Seq<int>
    decreases ps.len(),
{
    if ps.len() == 0 {
        Seq::empty()
    } else {
        let t = sort_positions(ps.drop_last(), keys, desc);
        t.insert(ins_pos_by(t, keys, keys[ps.last()], desc), ps.last())
    }
}

/// At most `limit` of the positions when a limit is given; a negative limit
/// keeps them all (it reads as a huge count).
pub open spec fn cap_by_limit(s: Seq<int>, limit: Option<i64>) -> Seq<int> {
    match limit {
        Some(l) => if l >= 0 && s.len() > l {
            s.take(l as int)
        } else {
            s
        },
        None => s,
    }
}

proof fn lemma_ins_pos_by_bound(s: Seq<int>, keys: Seq<int>, k: int, desc: bool)
    ensures
        0 <= ins_pos_by(s, keys, k, desc) <= s.len(),
    decreases s.len(),
{
    if s.len() > 0 {
        lemma_ins_pos_by_bound(s.drop_first(), keys, k, desc);
    }
}

/// Whether key `a` may stand before key `b`.
fn key_in_order(a: i128, b: i128, desc: bool) -> (r: bool)
    ensures
        r == in_order(a as int, b as int, desc),
{
    if desc {
        a >= b
    } else {
        a <= b
    }
}

/// Inserts position `i` where its key goes in `out`.
pub fn insert_by_key(out: &mut Vec<usize>, keys: &Vec<i128>, i: usize, desc: bool)
    requires
        forall|j: int| 0 <= j < old(out)@.len() ==> #[trigger] old(out)@[j] < keys@.len(),
        i < keys@.len(),
    ensures
        forall|j: int| 0 <= j < final(out)@.len() ==> #[trigger] final(out)@[j] < keys@.len(),
        int_positions(final(out)@) == int_positions(old(out)@).insert(
            ins_pos_by(int_positions(old(out)@), int_keys(keys@), keys@[i as int] as int, desc),
            i as int,
        ),
{
    let ghost t = int_positions(out@);
    let ghost ks = int_keys(keys@);
    let k = keys[i];
    let mut p: usize = 0;
    proof {
        assert(t.skip(0) =~= t);
        lemma_ins_pos_by_bound(t, ks, k as int, desc);
    }
    while p < out.len() && key_in_order(keys[out[p]], k, desc)
        invariant
            t == int_positions(out@),
            ks == int_keys(keys@),
            k == keys@[i as int],
            p <= out@.len(),
            forall|j: int| 0 <= j < out@.len() ==> #[trigger] out@[j] < keys@.len(),
            ins_pos_by(t, ks, k as int, desc) == p + ins_pos_by(t.skip(p as int), ks, k as int, desc),
        decreases out@.len() - p,
    {
        assert(t.skip(p as int).drop_first() =~= t.skip(p as int + 1));
        assert(t.skip(p as int)[0] == out@[p as int] as int);
        assert(ks[out@[p as int] as int] == keys@[out@[p as int] as int] as int);
        p += 1;
    }
    proof {
        if p < out@.len() {
            assert(t.skip(p as int)[0] == out@[p as int] as int);
            assert(ks[out@[p as int] as int] == keys@[out@[p as int] as int] as int);
        }
        assert(ins_pos_by(t, ks, k as int, desc) == p);
    }
    let ghost before = out@;
    out.insert(p, i);
    proof {
        assert(int_positions(out@) =~= t.insert(p as int, i as int));
        assert forall|j: int| 0 <= j < out@.len() implies #[trigger] out@[j] < keys@.len() by {
            if j < p {
                assert(out@[j] == before[j]);
            } else if j > p {
                assert(out@[j] == before[j - 1]);
            }
        }
    }
}

/// Truncates `out` to `limit` when a non-negative limit is given.
pub fn truncate_to_limit(out: &mut Vec<usize>, limit: Option<i64>)
    ensures
        int_positions(final(out)@) == cap_by_limit(int_positions(old(out)@), limit),
        forall|j: int| 0 <= j < final(out)@.len() ==> #[trigger] final(out)@[j] == old(out)@[j],
{
    match limit {
        Some(l) => {
            if l >= 0 && (l as u64) < (out.len() as u64) {
                out.truncate(l as usize);
                assert(int_positions(out@) =~= int_positions(old(out)@).take(l as int));
            }
        },
        None => {},
    }
}

/// The positions whose flag is set, in order.
pub open spec fn kept_flags(flags: Seq<bool>) -> Seq<int>
    decreases flags.len(),
{
    if flags.len() == 0 {
        Seq::empty()
    } else {
        let t = kept_flags(flags.drop_last());
        if flags.last() {
            t.push(flags.len() - 1)
        } else {
            t
        }
    }
}

/// The flagged positions, stably ordered by key (descending when `desc`),
/// cut to `limit`.
pub fn ordered_positions(keys: &Vec<i128>, keep: &Vec<bool>, desc: bool, limit: Option<i64>) -> (r: Vec<usize>)
    requires
        keys@.len() == keep@.len(),
    ensures
        int_positions(r@) == cap_by_limit(sort_positions(kept_flags(keep@), int_keys(keys@), desc), limit),
{
    let mut out: Vec<usize> = Vec::new();
    let mut i: usize = 0;
    proof {
        assert(keep@.take(0) =~= Seq::<bool>::empty());
        assert(int_positions(out@) =~= Seq::<int>::empty());
    }
    while i < keep.len()
        invariant
            keys@.len() == keep@.len(),
            i <= keep@.len(),
            int_positions(out@) == sort_positions(kept_flags(keep@.take(i as int)), int_keys(keys@), desc),
            forall|j: int| 0 <= j < out@.len() ==> #[trigger] out@[j] < i,
        decreases keep@.len() - i,
    {
        let ghost prev = kept_flags(keep@.take(i as int));
        proof {
            assert(keep@.take(i as int + 1).drop_last() =~= keep@.take(i as int));
            assert(keep@.take(i as int + 1).last() == keep@[i as int]);
        }
        if keep[i] {
            let ghost before = out@;
            insert_by_key(&mut out, keys, i, desc);
            proof {
                let ip = ins_pos_by(int_positions(before), int_keys(keys@), keys@[i as int] as int, desc);
                lemma_ins_pos_by_bound(int_positions(before), int_keys(keys@), keys@[i as int] as int, desc);
                assert(int_positions(before).len() == before.len());
                assert(int_positions(out@).len() == out@.len());
                assert forall|j: int| 0 <= j < out@.len() implies #[trigger] out@[j] < i + 1 by {
                    assert(int_positions(out@)[j] == out@[j] as int);
                    if j < ip {
                        assert(int_positions(before)[j] == before[j] as int);
                    } else if j > ip {
                        assert(int_positions(before)[j - 1] == before[j - 1] as int);
                    }
                }
                assert(kept_flags(keep@.take(i as int + 1)) == prev.push(i as int));
                assert(prev.push(i as int).drop_last() =~= prev);
                assert(keys@[i as int] as int == int_keys(keys@)[i as int]);
            }
        } else {
            assert(kept_flags(keep@.take(i as int + 1)) == prev);
        }
        i += 1;
    }
    proof {
        assert(keep@.take(keep@.len() as int) =~= keep@);
    }
    truncate_to_limit(&mut out, limit);
    out
}

proof fn lemma_ins_pos_by_splits(t: Seq<int>, keys: Seq<int>, k: int, desc: bool)
    requires
        forall|a: int, b: int| 0 <= a < b < t.len() ==> in_order(keys[#[trigger] t[a]], keys[#[trigger] t[b]], desc),
    ensures
        0 <= ins_pos_by(t, keys, k, desc) <= t.len(),
        forall|j: int| 0 <= j < ins_pos_by(t, keys, k, desc) ==> in_order(keys[#[trigger] t[j]], k, desc),
        forall|j: int| ins_pos_by(t, keys, k, desc) <= j < t.len() ==> !in_order(keys[#[trigger] t[j]], k, desc),
    decreases t.len(),
{
    if t.len() > 0 {
        let u = t.drop_first();
        assert forall|a: int, b: int| 0 <= a < b < u.len() implies in_order(keys[#[trigger] u[a]], keys[#[trigger] u[b]], desc) by {
            assert(u[a] == t[a + 1] && u[b] == t[b + 1]);
        }
        lemma_ins_pos_by_splits(u, keys, k, desc);
        if !in_order(keys[t[0]], k, desc) {
            assert forall|j: int| 0 <= j < t.len() implies !in_order(keys[#[trigger] t[j]], k, desc) by {
                if j > 0 {
                    assert(in_order(keys[t[0]], keys[t[j]], desc));
                }
            }
        } else {
            assert forall|j: int| 0 <= j < ins_pos_by(t, keys, k, desc) implies in_order(keys[#[trigger] t[j]], k, desc) by {
                if j > 0 {
                    assert(t[j] == u[j - 1]);
                }
            }
            assert forall|j: int| ins_pos_by(t, keys, k, desc) <= j < t.len() implies !in_order(keys[#[trigger] t[j]], k, desc) by {
                assert(t[j] == u[j - 1]);
            }
        }
    }
}

/// Sorting keeps the positions it is given and puts their keys in order.
pub proof fn law_sort_positions_ordered(ps: Seq<int>, keys: Seq<int>, desc: bool)
    ensures
        sort_positions(ps, keys, desc).len() == ps.len(),
        forall|a: int, b: int|
            0 <= a < b < sort_positions(ps, keys, desc).len() ==> in_order(
                keys[#[trigger] sort_positions(ps, keys, desc)[a]],
                keys[#[trigger] sort_positions(ps, keys, desc)[b]],
                desc,
            ),
        forall|j: int| 0 <= j < sort_positions(ps, keys, desc).len() ==> ps.contains(#[trigger] sort_positions(ps, keys, desc)[j]),
    decreases ps.len(),
{
    if ps.len() > 0 {
        let t = sort_positions(ps.drop_last(), keys, desc);
        let x = ps.last();
        let k = keys[x];
        law_sort_positions_ordered(ps.drop_last(), keys, desc);
        lemma_ins_pos_by_splits(t, keys, k, desc);
        let p = ins_pos_by(t, keys, k, desc);
        let r = t.insert(p, x);
        assert(r == sort_positions(ps, keys, desc));
        assert forall|a: int, b: int| 0 <= a < b < r.len() implies in_order(keys[#[trigger] r[a]], keys[#[trigger] r[b]], desc) by {
            if b < p {
            } else if b == p {
                assert(r[a] == t[a]);
            } else if a < p {
                assert(r[b] == t[b - 1]);
            } else if a == p {
                assert(r[b] == t[b - 1]);
            } else {
                assert(r[a] == t[a - 1] && r[b] == t[b - 1]);
            }
        }
        assert forall|j: int| 0 <= j < r.len() implies ps.contains(#[trigger] r[j]) by {
            if j < p {
                assert(ps.drop_last().contains(t[j]));
                let i = choose|i: int| 0 <= i < ps.drop_last().len() && ps.drop_last()[i] == t[j];
                assert(ps[i] == t[j]);
            } else if j == p {
                assert(ps[ps.len() - 1] == x);
            } else {
                assert(ps.drop_last().contains(t[j - 1]));
                let i = choose|i: int| 0 <= i < ps.drop_last().len() && ps.drop_last()[i] == t[j - 1];
                assert(ps[i] == t[j - 1]);
            }
        }
    }
}

/// Every kept position is in range and flagged.
pub proof fn lemma_kept_flags_flagged(flags: Seq<bool>)
    ensures
        forall|x: int| #[trigger] kept_flags(flags).contains(x) ==> 0 <= x < flags.len() && flags[x],
    decreases flags.len(),
{
    if flags.len() > 0 {
        let f = flags.drop_last();
        lemma_kept_flags_flagged(f);
        assert forall|x: int| #[trigger] kept_flags(flags).contains(x) implies 0 <= x < flags.len() && flags[x] by {
            if flags.last() && x == flags.len() - 1 {
            } else {
                let t = kept_flags(f);
                if flags.last() {
                    let i = choose|i: int| 0 <= i < t.push(flags.len() - 1).len() && #[trigger] t.push(flags.len() - 1)[i] == x;
                    if i < t.len() {
                        assert(t.contains(x));
                    }
                }
                assert(t.contains(x));
                assert(f[x] == flags[x]);
            }
        }
    }
}

/// Cutting to a limit keeps a prefix.
pub proof fn lemma_cap_is_prefix(s: Seq<int>, limit: Option<i64>)
    ensures
        cap_by_limit(s, limit).len() <= s.len(),
        forall|j: int| 0 <= j < cap_by_limit(s, limit).len() ==> #[trigger] cap_by_limit(s, limit)[j] == s[j],
{
}

/// Every flagged position is kept.
pub proof fn lemma_kept_flags_complete(flags: Seq<bool>)
    ensures
        forall|x: int| 0 <= x < flags.len() && #[trigger] flags[x] ==> kept_flags(flags).contains(x),
    decreases flags.len(),
{
    if flags.len() > 0 {
        let f = flags.drop_last();
        lemma_kept_flags_complete(f);
        let t = kept_flags(f);
        assert forall|x: int| 0 <= x < flags.len() && #[trigger] flags[x] implies kept_flags(flags).contains(x) by {
            if x == flags.len() - 1 {
                assert(t.push(x)[t.len() as int] == x);
            } else {
                assert(f[x] == flags[x]);
                assert(t.contains(x));
                let i = choose|i: int| 0 <= i < t.len() && #[trigger] t[i] == x;
                if flags.last() {
                    assert(t.push(flags.len() - 1)[i] == x);
                }
            }
        }
    }
}

/// Sorting loses no position.
pub proof fn lemma_sort_positions_complete(ps: Seq<int>, keys: Seq<int>, desc: bool)
    ensures
        forall|x: int| #[trigger] ps.contains(x) ==> sort_positions(ps, keys, desc).contains(x),
    decreases ps.len(),
{
    if ps.len() > 0 {
        let d = ps.drop_last();
        lemma_sort_positions_complete(d, keys, desc);
        let t = sort_positions(d, keys, desc);
        let x0 = ps.last();
        lemma_ins_pos_by_bound(t, keys, keys[x0], desc);
        let p = ins_pos_by(t, keys, keys[x0], desc);
        let r = t.insert(p, x0);
        assert(r == sort_positions(ps, keys, desc));
        assert forall|x: int| #[trigger] ps.contains(x) implies r.contains(x) by {
            let i = choose|i: int| 0 <= i < ps.len() && #[trigger] ps[i] == x;
            if i == ps.len() - 1 {
                assert(r[p] == x0);
            } else {
                assert(d[i] == x);
                assert(d.contains(x));
                assert(t.contains(x));
                let k = choose|k: int| 0 <= k < t.len() && #[trigger] t[k] == x;
                if k < p {
                    assert(r[k] == x);
                } else {
                    assert(r[k + 1] == x);
                }
            }
        }
    }
}

} // verus!
