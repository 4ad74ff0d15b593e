//! A small keyed table kept as a vector of `(key, value)` pairs with distinct keys. The graph's
//! per-node and per-chunk bookkeeping is keyed by small structs, for which this table's
//! behaviour can be stated and proved exactly.

use vstd::prelude::*;

verus! {

/// Key types whose executable equality is exactly spec equality.
pub trait KeyEq: Sized {
    fn key_eq(&self, other: &Self) -> (r: bool)
        ensures
            r == (*self == *other),
    ;
}

impl KeyEq for usize {
    fn key_eq(&self, other: &Self) -> (r: bool) {
        *self == *other
    }
}

/// The value stored for `k` in `s`, looking from the end.
pub open spec fn lookup<K, V>(s: Seq<(K, V)>, k: K) -> Option<V>
    decreases s.len(),
{
    if s.len() == 0 {
        None
    } else if s.last().0 == k {
        Some(s.last().1)
    } else {
        lookup(s.drop_last(), k)
    }
}

/// No key occurs twice.
pub open spec fn keys_unique<K, V>(s: Seq<(K, V)>) -> bool {
    forall|i: int, j: int| 0 <= i < s.len() && 0 <= j < s.len() && i != j ==> s[i].0 != s[j].0
}

/// The map that a pair sequence stands for.
pub open spec fn to_map<K, V>(s: Seq<(K, V)>) -> Map<K, V> {
    Map::new(|k: K| lookup(s, k) is Some, |k: K| lookup(s, k).unwrap())
}

/// With distinct keys, `lookup` finds exactly the pair that holds the key.
pub proof fn lemma_lookup<K, V>(s: Seq<(K, V)>)
    requires
        keys_unique(s),
    ensures
        forall|i: int| 0 <= i < s.len() ==> #[trigger] lookup(s, s[i].0) == Some(s[i].1),
        forall|k: K| #[trigger] lookup(s, k) is None <==> (forall|i: int| 0 <= i < s.len() ==> s[i].0 != k),
        forall|k: K| #[trigger] lookup(s, k) is Some ==> (exists|i: int| 0 <= i < s.len() && s[i].0 == k && lookup(s, k) == Some(s[i].1)),
    decreases s.len(),
{
    if s.len() > 0 {
        let t = s.drop_last();
        assert(keys_unique(t));
        lemma_lookup(t);
        assert forall|i: int| 0 <= i < s.len() implies #[trigger] lookup(s, s[i].0) == Some(s[i].1) by {
            if i < s.len() - 1 {
                assert(t[i] == s[i]);
                assert(s[i].0 != s[s.len() - 1].0);
                assert(lookup(t, t[i].0) == Some(t[i].1));
            }
        }
        assert forall|k: K| #[trigger] lookup(s, k) is None <==> (forall|i: int| 0 <= i < s.len() ==> s[i].0 != k) by {
            if lookup(s, k) is None {
                assert forall|i: int| 0 <= i < s.len() implies s[i].0 != k by {
                    if i < s.len() - 1 {
                        assert(t[i] == s[i]);
                    }
                }
            } else {
                if s.last().0 != k {
                    let i = choose|i: int| 0 <= i < t.len() && t[i].0 == k && lookup(t, k) == Some(t[i].1);
                    assert(s[i] == t[i]);
                }
            }
        }
        assert forall|k: K| #[trigger] lookup(s, k) is Some implies (exists|i: int| 0 <= i < s.len() && s[i].0 == k && lookup(s, k) == Some(s[i].1)) by {
            if s.last().0 == k {
                assert(s[s.len() - 1].0 == k);
            } else {
                let i = choose|i: int| 0 <= i < t.len() && t[i].0 == k && lookup(t, k) == Some(t[i].1);
                assert(s[i] == t[i]);
            }
        }
    }
}

/// A table of distinct keys, each with its value.
pub struct AssocMap<K, V> {
    entries: Vec<(K, V)>,
}

impl<K, V> View for AssocMap<K, V> {
    type V = Seq<(K, V)>;

    closed spec fn view(&self) -> Seq<(K, V)> {
        self.entries@
    }
}

impl<K: KeyEq + Copy, V> AssocMap<K, V> {
    pub open spec fn wf(&self) -> bool {
        keys_unique(self@)
    }

    pub open spec fn map(&self) -> Map<K, V> {
        to_map(self@)
    }

    pub fn new() -> (r: Self)
        ensures
            r.wf(),
            r@ == Seq::<(K, V)>::empty(),
            r.map() == Map::<K, V>::empty(),
    {
        let r = AssocMap { entries: Vec::new() };
        assert(r.map() =~= Map::<K, V>::empty());
        r
    }

    pub fn len(&self) -> (n: usize)
        ensures
            n == self@.len(),
    {
        self.entries.len()
    }

    pub fn key_at(&self, i: usize) -> (k: K)
        requires
            i < self@.len(),
        ensures
            k == self@[i as int].0,
    {
        self.entries[i].0
    }

    pub fn value_at(&self, i: usize) -> (v: &V)
        requires
            i < self@.len(),
        ensures
            *v == self@[i as int].1,
    {
        &self.entries[i].1
    }

    /// Position of `k`, if it is present.
    pub fn find(&self, k: &K) -> (r: Option<usize>)
        ensures
            r matches Some(i) ==> i < self@.len() && self@[i as int].0 == *k,
            r is None ==> forall|i: int| 0 <= i < self@.len() ==> self@[i].0 != *k,
    {
        let mut i: usize = 0;
        while i < self.entries.len()
            invariant
                i <= self@.len(),
                self@ == self.entries@,
                forall|j: int| 0 <= j < i ==> self@[j].0 != *k,
            decreases self@.len() - i,
        {
            if self.entries[i].0.key_eq(k) {
                return Some(i);
            }
            i = i + 1;
        }
        None
    }

    pub fn get(&self, k: &K) -> (r: Option<&V>)
        requires
            self.wf(),
        ensures
            r is Some <==> self.map().contains_key(*k),
            r matches Some(v) ==> *v == self.map()[*k],
    {
        proof {
            lemma_lookup(self@);
        }
        match self.find(k) {
            Some(i) => Some(&self.entries[i].1),
            None => None,
        }
    }

    pub fn contains_key(&self, k: &K) -> (r: bool)
        requires
            self.wf(),
        ensures
            r == self.map().contains_key(*k),
    {
        proof {
            lemma_lookup(self@);
        }
        self.find(k).is_some()
    }

    /// Sets the value of `k`, keeping its position if it was present and appending it otherwise.
    pub fn insert(&mut self, k: K, v: V)
        requires
            old(self).wf(),
        ensures
            final(self).wf(),
            final(self).map() == old(self).map().insert(k, v),
    {
        proof {
            lemma_lookup(self@);
        }
        let pos = self.find(&k);
        match pos {
            Some(i) => {
                self.entries.set(i, (k, v));
            },
            None => {
                self.entries.push((k, v));
            },
        }
        proof {
            let o = old(self)@;
            let n = self@;
            let p: int = match pos { Some(i) => i as int, None => o.len() as int };
            assert(n[p] == (k, v));
            assert forall|j: int| 0 <= j < n.len() && j != p implies n[j] == o[j] by {}
            assert(keys_unique(n));
            lemma_lookup(n);
            assert forall|q: K| #[trigger] self.map().contains_key(q) == old(self).map().insert(k, v).contains_key(q) by {
                if q != k && old(self).map().contains_key(q) {
                    let j = choose|j: int| 0 <= j < o.len() && o[j].0 == q && lookup(o, q) == Some(o[j].1);
                    assert(n[j] == o[j]);
                    assert(lookup(n, n[j].0) == Some(n[j].1));
                }
                if q == k {
                    assert(lookup(n, n[p].0) == Some(n[p].1));
                }
                if self.map().contains_key(q) && q != k {
                    let j = choose|j: int| 0 <= j < n.len() && n[j].0 == q && lookup(n, q) == Some(n[j].1);
                    assert(n[j] == o[j]);
                    assert(lookup(o, o[j].0) == Some(o[j].1));
                }
            }
            assert forall|q: K| #[trigger] self.map().contains_key(q) implies self.map()[q] == old(self).map().insert(k, v)[q] by {
                if q == k {
                    assert(lookup(n, n[p].0) == Some(n[p].1));
                } else {
                    let j = choose|j: int| 0 <= j < n.len() && n[j].0 == q && lookup(n, q) == Some(n[j].1);
                    assert(n[j] == o[j]);
                    assert(lookup(o, o[j].0) == Some(o[j].1));
                }
            }
            assert(self.map() =~= old(self).map().insert(k, v));
        }
    }

    /// Replaces the value at position `i`, keeping its key and every other pair.
    pub fn set_value_at(&mut self, i: usize, v: V)
        requires
            old(self).wf(),
            i < old(self)@.len(),
        ensures
            final(self).wf(),
            final(self)@ == old(self)@.update(i as int, (old(self)@[i as int].0, v)),
    {
        let k = self.entries[i].0;
        self.entries.set(i, (k, v));
    }

    /// Removes the pair at position `i`, keeping the order of the others.
    pub fn remove_at(&mut self, i: usize) -> (r: (K, V))
        requires
            old(self).wf(),
            i < old(self)@.len(),
        ensures
            final(self).wf(),
            r == old(self)@[i as int],
            final(self)@ == old(self)@.remove(i as int),
            final(self).map() == old(self).map().remove(r.0),
    {
        proof {
            lemma_lookup(self@);
        }
        let r = self.entries.remove(i);
        proof {
            lemma_lookup(self@);
            assert forall|a: int, b: int|
                0 <= a < self@.len() && 0 <= b < self@.len() && a != b implies self@[a].0 != self@[b].0 by {
                let a2 = if a < i { a } else { a + 1 };
                let b2 = if b < i { b } else { b + 1 };
                assert(self@[a] == old(self)@[a2]);
                assert(self@[b] == old(self)@[b2]);
            }
            lemma_lookup(self@);
            assert forall|k: K| #[trigger] self.map().contains_key(k) == old(self).map().remove(r.0).contains_key(k) by {
                if k != r.0 && old(self).map().contains_key(k) {
                    let j = choose|j: int| 0 <= j < old(self)@.len() && old(self)@[j].0 == k && lookup(old(self)@, k) == Some(old(self)@[j].1);
                    assert(j != i);
                    let j2 = if j < i { j } else { j - 1 };
                    assert(self@[j2] == old(self)@[j]);
                }
                if self.map().contains_key(k) {
                    let j = choose|j: int| 0 <= j < self@.len() && self@[j].0 == k && lookup(self@, k) == Some(self@[j].1);
                    let j2 = if j < i { j } else { j + 1 };
                    assert(self@[j] == old(self)@[j2]);
                }
            }
            assert forall|k: K| #[trigger] self.map().contains_key(k) implies self.map()[k] == old(self).map()[k] by {
                let j = choose|j: int| 0 <= j < self@.len() && self@[j].0 == k && lookup(self@, k) == Some(self@[j].1);
                let j2 = if j < i { j } else { j + 1 };
                assert(self@[j] == old(self)@[j2]);
            }
            assert(self.map() =~= old(self).map().remove(r.0));
        }
        r
    }

    /// Removes `k`, returning its value if it was present.
    pub fn remove(&mut self, k: &K) -> (r: Option<V>)
        requires
            old(self).wf(),
        ensures
            final(self).wf(),
            final(self).map() == old(self).map().remove(*k),
            r is Some <==> old(self).map().contains_key(*k),
            r matches Some(v) ==> v == old(self).map()[*k],
    {
        proof {
            lemma_lookup(self@);
        }
        match self.find(k) {
            Some(i) => {
                let (_, v) = self.remove_at(i);
                Some(v)
            },
            None => {
                assert(self.map() =~= old(self).map().remove(*k));
                None
            },
        }
    }

    pub fn clear(&mut self)
        ensures
            final(self).wf(),
            final(self)@ == Seq::<(K, V)>::empty(),
            final(self).map() == Map::<K, V>::empty(),
    {
        self.entries.clear();
        assert(self.map() =~= Map::<K, V>::empty());
    }
}

} // verus!
