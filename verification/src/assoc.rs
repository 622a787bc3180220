//! An insertion-ordered map from agent or project names to values.
//!
//! The registry, the circuit breaker and the rate limiter keep per-name state.
//! Names are strings, so the state lives in a vector of `(name, value)` pairs in
//! which no name occurs twice; the abstract view is a `Map` from the name's
//! characters to the value, and `pairs` keeps the order in which names arrived.

use vstd::prelude::*;
use crate::text::str_eq;

verus! {

/// The names that occur in a sequence of pairs.
pub open spec fn key_set<V>(p: Seq<(Seq<char>, V)>) -> Set<Seq<char>> {
    Set::new(|k: Seq<char>| exists|i: int| 0 <= i < p.len() && #[trigger] p[i].0 == k)
}

pub open spec fn distinct_keys<V>(p: Seq<(Seq<char>, V)>) -> bool {
    forall|i: int, j: int| 0 <= i < p.len() && 0 <= j < p.len() && i != j ==> #[trigger] p[i].0 != #[trigger] p[j].0
}

/// A sequence of pairs with distinct names has as many names as pairs.
pub proof fn lemma_key_set_len<V>(p: Seq<(Seq<char>, V)>)
    requires
        distinct_keys(p),
    ensures
        key_set(p).finite(),
        key_set(p).len() == p.len(),
    decreases p.len(),
{
    if p.len() == 0 {
        assert(key_set(p) =~= Set::<Seq<char>>::empty());
    } else {
        let q = p.drop_last();
        assert(distinct_keys(q)) by {
            assert forall|i: int, j: int| 0 <= i < q.len() && 0 <= j < q.len() && i != j implies #[trigger] q[i].0 != #[trigger] q[j].0 by {
                assert(q[i] == p[i] && q[j] == p[j]);
            }
        }
        lemma_key_set_len(q);
        let last = p[p.len() - 1].0;
        assert forall|k: Seq<char>| #[trigger] key_set(p).contains(k) == key_set(q).insert(last).contains(k) by {
            if key_set(p).contains(k) {
                let i = choose|i: int| 0 <= i < p.len() && #[trigger] p[i].0 == k;
                if i < p.len() - 1 {
                    assert(q[i].0 == k);
                }
            }
            if key_set(q).contains(k) {
                let i = choose|i: int| 0 <= i < q.len() && #[trigger] q[i].0 == k;
                assert(p[i].0 == k);
            }
            if k == last {
                assert(p[p.len() - 1].0 == k);
            }
        }
        assert(key_set(p) =~= key_set(q).insert(last));
        assert(!key_set(q).contains(last)) by {
            if key_set(q).contains(last) {
                let i = choose|i: int| 0 <= i < q.len() && #[trigger] q[i].0 == last;
                assert(p[i].0 == p[p.len() - 1].0);
            }
        }
    }
}

#[derive(Debug)]
pub struct StrMap<V> {
    pub entries: Vec<(String, V)>,
}

impl<V> StrMap<V> {
    /// The entries with each name taken by its characters.
    pub open spec fn pairs(self) -> Seq<(Seq<char>, V)> {
        self.entries@.map_values(|e: (String, V)| (e.0@, e.1))
    }

    pub open spec fn key_at(self, i: int) -> Seq<char> {
        self.entries@[i].0@
    }

    /// No name occurs twice.
    pub open spec fn wf(self) -> bool {
        forall|i: int, j: int|
            0 <= i < self.entries@.len() && 0 <= j < self.entries@.len() && i != j
                ==> #[trigger] self.key_at(i) != #[trigger] self.key_at(j)
    }

    pub open spec fn has(self, k: Seq<char>) -> bool {
        exists|i: int| 0 <= i < self.entries@.len() && #[trigger] self.key_at(i) == k
    }

    pub open spec fn index_of(self, k: Seq<char>) -> int {
        choose|i: int| 0 <= i < self.entries@.len() && #[trigger] self.key_at(i) == k
    }

    pub open spec fn view(self) -> Map<Seq<char>, V> {
        Map::new(|k: Seq<char>| self.has(k), |k: Seq<char>| self.entries@[self.index_of(k)].1)
    }

    /// Each pair is the entry at the same position, named by its characters.
    pub proof fn lemma_pairs(self)
        ensures
            self.pairs().len() == self.entries@.len(),
            forall|j: int| 0 <= j < self.entries@.len() ==> #[trigger] self.pairs()[j] == (self.key_at(j), self.entries@[j].1),
    {
    }

    pub proof fn lemma_index_of(self, i: int)
        requires
            self.wf(),
            0 <= i < self.entries@.len(),
        ensures
            self.has(self.key_at(i)),
            self.index_of(self.key_at(i)) == i,
            self@.contains_key(self.key_at(i)),
            self@[self.key_at(i)] == self.entries@[i].1,
    {
        let k = self.key_at(i);
        assert(self.has(k));
        let j = self.index_of(k);
        assert(self.key_at(j) == k);
    }

    /// The map's names are those of its pairs, and there are as many of them
    /// as pairs.
    pub proof fn lemma_dom(self)
        requires
            self.wf(),
        ensures
            self@.dom() == key_set(self.pairs()),
            distinct_keys(self.pairs()),
            self@.dom().finite(),
            self@.dom().len() == self.entries@.len(),
    {
        let p = self.pairs();
        assert forall|i: int| 0 <= i < p.len() implies #[trigger] p[i].0 == self.key_at(i) by {}
        assert forall|k: Seq<char>| #[trigger] self@.dom().contains(k) == key_set(p).contains(k) by {
            if self.has(k) {
                let i = choose|i: int| 0 <= i < self.entries@.len() && #[trigger] self.key_at(i) == k;
                assert(p[i].0 == k);
            }
            if key_set(p).contains(k) {
                let i = choose|i: int| 0 <= i < p.len() && #[trigger] p[i].0 == k;
                assert(self.key_at(i) == k);
            }
        }
        assert(self@.dom() =~= key_set(p));
        assert(distinct_keys(p)) by {
            assert forall|i: int, j: int| 0 <= i < p.len() && 0 <= j < p.len() && i != j implies #[trigger] p[i].0 != #[trigger] p[j].0 by {
                assert(p[i].0 == self.key_at(i) && p[j].0 == self.key_at(j));
            }
        }
        lemma_key_set_len(p);
    }

    pub fn new() -> (m: Self)
        ensures
            m.wf(),
            m.entries@.len() == 0,
            m@ == Map::<Seq<char>, V>::empty(),
    {
        let m = StrMap { entries: Vec::new() };
        assert(m@ =~= Map::<Seq<char>, V>::empty());
        m
    }

    pub fn len(&self) -> (n: usize)
        ensures
            n == self.entries@.len(),
    {
        self.entries.len()
    }

    /// Position of `key`, if present.
    pub fn find(&self, key: &str) -> (r: Option<usize>)
        requires
            self.wf(),
        ensures
            match r {
                Some(i) => i < self.entries@.len() && self.key_at(i as int) == key@ && self.index_of(
                    key@,
                ) == i,
                None => !self.has(key@) && !self@.contains_key(key@),
            },
    {
        let mut i: usize = 0;
        while i < self.entries.len()
            invariant
                self.wf(),
                i <= self.entries@.len(),
                forall|j: int| 0 <= j < i ==> #[trigger] self.key_at(j) != key@,
            decreases self.entries@.len() - i,
        {
            if str_eq(self.entries[i].0.as_str(), key) {
                proof {
                    self.lemma_index_of(i as int);
                }
                return Some(i);
            }
            i += 1;
        }
        None
    }

    pub fn contains(&self, key: &str) -> (r: bool)
        requires
            self.wf(),
        ensures
            r == self@.contains_key(key@),
    {
        match self.find(key) {
            Some(i) => {
                proof {
                    self.lemma_index_of(i as int);
                }
                true
            },
            None => false,
        }
    }

    pub fn get(&self, key: &str) -> (r: Option<&V>)
        requires
            self.wf(),
        ensures
            match r {
                Some(v) => self@.contains_key(key@) && *v == self@[key@],
                None => !self@.contains_key(key@),
            },
    {
        match self.find(key) {
            Some(i) => {
                proof {
                    self.lemma_index_of(i as int);
                }
                Some(&self.entries[i].1)
            },
            None => None,
        }
    }

    /// Replaces the value at position `i`, keeping its name and position.
    pub fn set_value(&mut self, i: usize, value: V)
        requires
            old(self).wf(),
            i < old(self).entries@.len(),
        ensures
            final(self).wf(),
            final(self).pairs() == old(self).pairs().update(i as int, (old(self).key_at(i as int), value)),
            final(self)@ == old(self)@.insert(old(self).key_at(i as int), value),
    {
        let ghost old_self = *self;
        proof {
            old_self.lemma_index_of(i as int);
        }
        let (k, _) = self.entries.remove(i);
        self.entries.insert(i, (k, value));
        assert(self.entries@ == old_self.entries@.update(i as int, (k, value)));
        assert forall|a: int| 0 <= a < self.entries@.len() implies #[trigger] self.key_at(a) == old_self.key_at(a) by {}
        assert(self.pairs() =~= old_self.pairs().update(i as int, (old_self.key_at(i as int), value)));
        assert forall|kk: Seq<char>| self.has(kk) == old_self.has(kk) by {
            if self.has(kk) {
                let a = choose|a: int| 0 <= a < self.entries@.len() && #[trigger] self.key_at(a) == kk;
                assert(old_self.key_at(a) == kk);
            }
            if old_self.has(kk) {
                let a = choose|a: int| 0 <= a < old_self.entries@.len() && #[trigger] old_self.key_at(a) == kk;
                assert(self.key_at(a) == kk);
            }
        }
        assert forall|kk: Seq<char>| #[trigger] self.has(kk) implies self.entries@[self.index_of(kk)].1
            == old_self@.insert(old_self.key_at(i as int), value)[kk] by {
            let a = self.index_of(kk);
            self.lemma_index_of(a);
            old_self.lemma_index_of(a);
        }
        assert(self@ =~= old_self@.insert(old_self.key_at(i as int), value));
    }

    /// Inserts or replaces the value for `key`; a new name goes to the end.
    pub fn insert(&mut self, key: String, value: V)
        requires
            old(self).wf(),
        ensures
            final(self).wf(),
            final(self)@ == old(self)@.insert(key@, value),
            old(self).has(key@) ==> final(self).pairs() == old(self).pairs().update(
                old(self).index_of(key@),
                (key@, value),
            ),
            !old(self).has(key@) ==> final(self).pairs() == old(self).pairs().push((key@, value)),
    {
        match self.find(key.as_str()) {
            Some(i) => {
                self.set_value(i, value);
            },
            None => {
                let ghost old_self = *self;
                self.entries.push((key, value));
                let ghost n = old_self.entries@.len() as int;
                assert forall|a: int| 0 <= a < n implies #[trigger] self.key_at(a) == old_self.key_at(a) by {}
                assert(self.key_at(n) == key@);
                assert(self.pairs() =~= old_self.pairs().push((key@, value)));
                assert forall|kk: Seq<char>| self.has(kk) == (old_self.has(kk) || kk == key@) by {
                    if self.has(kk) {
                        let a = choose|a: int| 0 <= a < self.entries@.len() && #[trigger] self.key_at(a) == kk;
                        if a < n {
                            assert(old_self.key_at(a) == kk);
                        }
                    }
                    if old_self.has(kk) {
                        let a = choose|a: int| 0 <= a < old_self.entries@.len() && #[trigger] old_self.key_at(a) == kk;
                        assert(self.key_at(a) == kk);
                    }
                    if kk == key@ {
                        assert(self.key_at(n) == kk);
                    }
                }
                assert forall|kk: Seq<char>| #[trigger] self.has(kk) implies self.entries@[self.index_of(kk)].1
                    == old_self@.insert(key@, value)[kk] by {
                    let a = self.index_of(kk);
                    self.lemma_index_of(a);
                    if a < n {
                        old_self.lemma_index_of(a);
                    }
                }
                assert(self@ =~= old_self@.insert(key@, value));
            },
        }
    }

    /// Removes the entry at position `i`; later entries move up by one.
    pub fn remove_at(&mut self, i: usize) -> (r: V)
        requires
            old(self).wf(),
            i < old(self).entries@.len(),
        ensures
            final(self).wf(),
            r == old(self).entries@[i as int].1,
            final(self).pairs() == old(self).pairs().remove(i as int),
            final(self)@ == old(self)@.remove(old(self).key_at(i as int)),
    {
        let ghost old_self = *self;
        let (_, v) = self.entries.remove(i);
        let ghost k = old_self.key_at(i as int);
        assert forall|a: int| 0 <= a < self.entries@.len() implies #[trigger] self.key_at(a)
            == old_self.key_at(if a < i { a } else { a + 1 }) by {}
        assert(self.pairs() =~= old_self.pairs().remove(i as int));
        assert forall|kk: Seq<char>| self.has(kk) == (old_self.has(kk) && kk != k) by {
            if self.has(kk) {
                let a = choose|a: int| 0 <= a < self.entries@.len() && #[trigger] self.key_at(a) == kk;
                let b = if a < i { a } else { a + 1 };
                assert(old_self.key_at(b) == kk);
            }
            if old_self.has(kk) && kk != k {
                let b = choose|b: int| 0 <= b < old_self.entries@.len() && #[trigger] old_self.key_at(b) == kk;
                let a = if b < i { b } else { b - 1 };
                assert(self.key_at(a) == kk);
            }
        }
        assert forall|kk: Seq<char>| #[trigger] self.has(kk) implies self.entries@[self.index_of(kk)].1
            == old_self@.remove(k)[kk] by {
            let a = self.index_of(kk);
            self.lemma_index_of(a);
            let b = if a < i { a } else { a + 1 };
            old_self.lemma_index_of(b);
        }
        assert(self@ =~= old_self@.remove(k));
        v
    }

    /// Removes every name listed in `keys`.
    pub fn remove_all(&mut self, keys: &Vec<String>)
        requires
            old(self).wf(),
        ensures
            final(self).wf(),
            final(self)@ == old(self)@.remove_keys(keys@.map_values(|s: String| s@).to_set()),
    {
        let ghost start = self@;
        let ghost ks = keys@.map_values(|s: String| s@);
        let mut i: usize = 0;
        while i < keys.len()
            invariant
                self.wf(),
                i <= keys@.len(),
                ks == keys@.map_values(|s: String| s@),
                self@ == start.remove_keys(ks.take(i as int).to_set()),
            decreases keys@.len() - i,
        {
            let ghost prev = self@;
            let _ = self.remove(keys[i].as_str());
            proof {
                assert(ks[i as int] == keys@[i as int]@);
                assert(ks.take(i + 1) =~= ks.take(i as int).push(ks[i as int]));
                let t1 = ks.take(i + 1);
                let t0 = ks.take(i as int);
                assert forall|x: Seq<char>| t1.to_set().contains(x) == t0.to_set().insert(ks[i as int]).contains(x) by {
                    if t1.contains(x) {
                        let j = choose|j: int| 0 <= j < t1.len() && #[trigger] t1[j] == x;
                        if j < i {
                            assert(t0[j] == x);
                        }
                    }
                    if t0.contains(x) {
                        let j = choose|j: int| 0 <= j < t0.len() && #[trigger] t0[j] == x;
                        assert(t1[j] == x);
                    }
                    if x == ks[i as int] {
                        assert(t1[i as int] == x);
                    }
                }
                assert(t1.to_set() =~= t0.to_set().insert(ks[i as int]));
                assert(self@ =~= start.remove_keys(ks.take(i + 1).to_set()));
            }
            i += 1;
        }
        assert(ks.take(keys@.len() as int) =~= ks);
    }

    /// Removes `key` if present, returning its value.
    pub fn remove(&mut self, key: &str) -> (r: Option<V>)
        requires
            old(self).wf(),
        ensures
            final(self).wf(),
            final(self)@ == old(self)@.remove(key@),
            match r {
                Some(v) => old(self)@.contains_key(key@) && v == old(self)@[key@]
                    && final(self).pairs() == old(self).pairs().remove(old(self).index_of(key@)),
                None => !old(self)@.contains_key(key@) && final(self).pairs() == old(self).pairs(),
            },
    {
        match self.find(key) {
            Some(i) => {
                proof {
                    self.lemma_index_of(i as int);
                }
                let v = self.remove_at(i);
                Some(v)
            },
            None => {
                assert(self@.remove(key@) =~= self@);
                None
            },
        }
    }
}

} // verus!
