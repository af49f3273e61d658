//! Ordered map keyed by identifiers.
use vstd::prelude::*;

verus! {

/// The sequence of identifiers is strictly increasing.
pub open spec fn strictly_increasing(s: Seq<u64>) -> bool {
    forall|i: int, j: int| 0 <= i < j < s.len() ==> #[trigger] s[i] < #[trigger] s[j]
}

/// Map from `u64` identifiers to values, iterated in increasing order of identifiers.
#[derive(Debug)]
pub struct IdMap<V> {
    entries: Vec<(u64, V)>,
}

impl<V> View for IdMap<V> {
    type V = Map<u64, V>;

    closed spec fn view(&self) -> Map<u64, V> {
        Map::new(
            |k: u64| self.spec_keys().contains(k),
            |k: u64| self.entries@[self.spec_keys().index_of(k)].1,
        )
    }
}

impl<V> IdMap<V> {
    #[verifier::type_invariant]
    closed spec fn inv(&self) -> bool {
        strictly_increasing(self.spec_keys())
    }

    /// Identifiers held by the map, in increasing order.
    pub closed spec fn spec_keys(&self) -> Seq<u64> {
        self.entries@.map_values(|e: (u64, V)| e.0)
    }

    /// The identifiers are increasing and are exactly the keys of the view.
    pub open spec fn consistent(&self) -> bool {
        &&& strictly_increasing(self.spec_keys())
        &&& forall|k: u64| #[trigger] self.spec_keys().contains(k) <==> self@.contains_key(k)
        &&& self@.dom().finite()
        &&& self@.dom().len() == self.spec_keys().len()
    }

    /// Value stored for the `i`-th identifier.
    pub open spec fn value_at_spec(&self, i: int) -> V {
        self@[self.spec_keys()[i]]
    }

    proof fn lemma_consistent(&self)
        requires
            self.inv(),
        ensures
            self.consistent(),
            forall|i: int|
                0 <= i < self.entries@.len() ==> #[trigger] self@[self.spec_keys()[i]]
                    == self.entries@[i].1,
            forall|i: int|
                0 <= i < self.entries@.len() ==> self.spec_keys().index_of(#[trigger] self.spec_keys()[i])
                    == i,
    {
        let keys = self.spec_keys();
        assert forall|i: int| 0 <= i < self.entries@.len() implies keys.index_of(#[trigger] keys[i]) == i by {
            assert(keys.contains(keys[i]));
            let j = keys.index_of(keys[i]);
            if j != i {
                if j < i {
                    assert(keys[j] < keys[i]);
                } else {
                    assert(keys[i] < keys[j]);
                }
            }
        }
        assert forall|k: u64| #[trigger] keys.contains(k) <==> self@.contains_key(k) by {}
        keys.unique_seq_to_set();
        assert(self@.dom() =~= keys.to_set());
        keys.lemma_no_dup_set_cardinality();
    }

    pub fn new() -> (m: Self)
        ensures
            m@ == Map::<u64, V>::empty(),
            m.consistent(),
            m.spec_keys() == Seq::<u64>::empty(),
    {
        let m = Self { entries: Vec::new() };
        proof {
            assert(m.spec_keys() =~= Seq::<u64>::empty());
            m.lemma_consistent();
            assert(m@ =~= Map::<u64, V>::empty());
        }
        m
    }

    pub fn len(&self) -> (n: usize)
        ensures
            n == self.spec_keys().len(),
            self.consistent(),
    {
        proof {
            use_type_invariant(self);
            self.lemma_consistent();
        }
        self.entries.len()
    }

    pub fn is_empty(&self) -> (r: bool)
        ensures
            r == (self.spec_keys().len() == 0),
            self.consistent(),
    {
        self.len() == 0
    }

    /// The `i`-th identifier in increasing order.
    pub fn key_at(&self, i: usize) -> (k: u64)
        requires
            i < self.spec_keys().len(),
        ensures
            k == self.spec_keys()[i as int],
            self.consistent(),
    {
        proof {
            use_type_invariant(self);
            self.lemma_consistent();
        }
        self.entries[i].0
    }

    /// Value of the `i`-th identifier in increasing order.
    pub fn value_at(&self, i: usize) -> (v: &V)
        requires
            i < self.spec_keys().len(),
        ensures
            *v == self@[self.spec_keys()[i as int]],
            self.consistent(),
    {
        proof {
            use_type_invariant(self);
            self.lemma_consistent();
        }
        &self.entries[i].1
    }

    /// Index of the first entry whose identifier is not smaller than `k`.
    fn lower_bound(&self, k: u64) -> (i: usize)
        ensures
            i <= self.spec_keys().len(),
            forall|j: int| 0 <= j < i ==> #[trigger] self.spec_keys()[j] < k,
            forall|j: int| i <= j < self.spec_keys().len() ==> #[trigger] self.spec_keys()[j] >= k,
    {
        proof {
            use_type_invariant(self);
        }
        let mut i: usize = 0;
        while i < self.entries.len() && self.entries[i].0 < k
            invariant
                i <= self.entries@.len(),
                strictly_increasing(self.spec_keys()),
                forall|j: int| 0 <= j < i ==> #[trigger] self.spec_keys()[j] < k,
            decreases self.entries@.len() - i,
        {
            i = i + 1;
        }
        proof {
            if i < self.entries@.len() {
                assert forall|j: int| i <= j < self.spec_keys().len() implies #[trigger] self.spec_keys()[j]
                    >= k by {
                    if j > i {
                        assert(self.spec_keys()[i as int] < self.spec_keys()[j]);
                    }
                }
            }
        }
        i
    }

    pub fn contains_key(&self, k: u64) -> (r: bool)
        ensures
            r == self@.contains_key(k),
            self.consistent(),
    {
        proof {
            use_type_invariant(self);
            self.lemma_consistent();
        }
        let i = self.lower_bound(k);
        let found = i < self.entries.len() && self.entries[i].0 == k;
        proof {
            self.lemma_lookup(k, i as int);
        }
        found
    }

    /// The identifiers of the map are exactly the keys of its view.
    pub proof fn lemma_view_keys(&self)
        ensures
            forall|k: u64| #[trigger] self@.contains_key(k) <==> self.spec_keys().contains(k),
    {
    }

    /// Every map holds finitely many identifiers.
    pub proof fn lemma_dom_finite(&self)
        ensures
            self@.dom().finite(),
    {
        assert(self@.dom() =~= self.spec_keys().to_set());
    }

    proof fn lemma_lookup(&self, k: u64, i: int)
        requires
            self.inv(),
            0 <= i <= self.spec_keys().len(),
            forall|j: int| 0 <= j < i ==> #[trigger] self.spec_keys()[j] < k,
            forall|j: int| i <= j < self.spec_keys().len() ==> #[trigger] self.spec_keys()[j] >= k,
        ensures
            self@.contains_key(k) <==> (i < self.spec_keys().len() && self.spec_keys()[i] == k),
            i < self.spec_keys().len() && self.spec_keys()[i] == k ==> self@[k] == self.entries@[i].1,
    {
        self.lemma_consistent();
        if self.spec_keys().contains(k) {
            let j = self.spec_keys().index_of(k);
            assert(self.spec_keys()[j] == k);
            if j > i {
                assert(self.spec_keys()[i] < self.spec_keys()[j]);
            }
        }
        if i < self.spec_keys().len() && self.spec_keys()[i] == k {
            assert(self.spec_keys().contains(k));
        }
    }

    pub fn get(&self, k: u64) -> (r: Option<&V>)
        ensures
            r == (if self@.contains_key(k) {
                Some(&self@[k])
            } else {
                None
            }),
            self.consistent(),
    {
        proof {
            use_type_invariant(self);
            self.lemma_consistent();
        }
        let i = self.lower_bound(k);
        proof {
            self.lemma_lookup(k, i as int);
        }
        if i < self.entries.len() && self.entries[i].0 == k {
            Some(&self.entries[i].1)
        } else {
            None
        }
    }

    /// Sets the value for `k`, returning the value previously stored for it.
    pub fn insert(&mut self, k: u64, v: V) -> (r: Option<V>)
        ensures
            final(self)@ == old(self)@.insert(k, v),
            r == (if old(self)@.contains_key(k) {
                Some(old(self)@[k])
            } else {
                None
            }),
            final(self).consistent(),
            final(self).spec_keys().to_set() == old(self).spec_keys().to_set().insert(k),
    {
        proof {
            use_type_invariant(&*self);
            self.lemma_consistent();
        }
        let i = self.lower_bound(k);
        let ghost old_keys = self.spec_keys();
        proof {
            self.lemma_lookup(k, i as int);
        }
        if i < self.entries.len() && self.entries[i].0 == k {
            let mut entries: Vec<(u64, V)> = Vec::new();
            std::mem::swap(&mut entries, &mut self.entries);
            let (_, value) = entries.remove(i);
            entries.insert(i, (k, v));
            proof {
                assert(entries@.map_values(|e: (u64, V)| e.0) =~= old_keys);
            }
            std::mem::swap(&mut entries, &mut self.entries);
            proof {
                use_type_invariant(&*self);
                self.lemma_lookup(k, i as int);
                assert(self.spec_keys() =~= old_keys);
                self.lemma_consistent();
                assert(self@ =~= old(self)@.insert(k, v));
                assert(self.spec_keys().to_set() =~= old_keys.to_set().insert(k));
            }
            Some(value)
        } else {
            let mut entries: Vec<(u64, V)> = Vec::new();
            std::mem::swap(&mut entries, &mut self.entries);
            entries.insert(i, (k, v));
            proof {
                assert(entries@.map_values(|e: (u64, V)| e.0) =~= old_keys.insert(i as int, k));
            }
            std::mem::swap(&mut entries, &mut self.entries);
            proof {
                assert(self.spec_keys() =~= old_keys.insert(i as int, k));
                assert forall|a: int, b: int| 0 <= a < b < self.spec_keys().len() implies #[trigger] self.spec_keys()[a]
                    < #[trigger] self.spec_keys()[b] by {
                    if b < i {
                    } else if a > i {
                        assert(old_keys[a - 1] < old_keys[b - 1]);
                    } else if a == i {
                        assert(old_keys[b - 1] >= k);
                        if i < old_keys.len() {
                            assert(old_keys[i as int] != k);
                        }
                    } else {
                        if b == i {
                        } else {
                            assert(old_keys[a] < old_keys[b - 1]);
                        }
                    }
                }
                use_type_invariant(&*self);
                self.lemma_consistent();
                assert(!old_keys.contains(k));
                assert forall|key: u64| #[trigger] self@.contains_key(key) <==> old(self)@.insert(
                    k,
                    v,
                ).contains_key(key) by {
                    if key != k && old_keys.contains(key) {
                        let j = old_keys.index_of(key);
                        if j < i {
                            assert(self.spec_keys()[j] == key);
                        } else {
                            assert(self.spec_keys()[j + 1] == key);
                        }
                    }
                    if self.spec_keys().contains(key) && key != k {
                        let j = self.spec_keys().index_of(key);
                        if j < i {
                            assert(old_keys[j] == key);
                        } else {
                            assert(old_keys[j - 1] == key);
                        }
                    }
                    assert(self.spec_keys()[i as int] == k);
                }
                assert forall|key: u64| #[trigger] self@.contains_key(key) implies self@[key] == old(
                    self,
                )@.insert(k, v)[key] by {
                    let j = self.spec_keys().index_of(key);
                    assert(self.spec_keys()[j] == key);
                    if key != k {
                        if j < i {
                            assert(old_keys[j] == key);
                        } else {
                            assert(old_keys[j - 1] == key);
                        }
                    }
                }
                assert(self@ =~= old(self)@.insert(k, v));
                assert(self.spec_keys().to_set() =~= old_keys.to_set().insert(k)) by {
                    assert forall|key: u64| self.spec_keys().to_set().contains(key) <==> old_keys.to_set().insert(
                        k,
                    ).contains(key) by {
                        assert(self.spec_keys().contains(key) <==> self@.contains_key(key));
                        assert(old_keys.contains(key) <==> old(self)@.contains_key(key));
                    }
                }
            }
            None
        }
    }

    /// Removes the value for `k`, returning it if it was present.
    pub fn remove(&mut self, k: u64) -> (r: Option<V>)
        ensures
            final(self)@ == old(self)@.remove(k),
            r == (if old(self)@.contains_key(k) {
                Some(old(self)@[k])
            } else {
                None
            }),
            final(self).consistent(),
            final(self).spec_keys().to_set() == old(self).spec_keys().to_set().remove(k),
    {
        proof {
            use_type_invariant(&*self);
            self.lemma_consistent();
        }
        let i = self.lower_bound(k);
        let ghost old_keys = self.spec_keys();
        proof {
            self.lemma_lookup(k, i as int);
        }
        if i < self.entries.len() && self.entries[i].0 == k {
            let mut entries: Vec<(u64, V)> = Vec::new();
            std::mem::swap(&mut entries, &mut self.entries);
            let (_, value) = entries.remove(i);
            proof {
                assert(entries@.map_values(|e: (u64, V)| e.0) =~= old_keys.remove(i as int));
            }
            std::mem::swap(&mut entries, &mut self.entries);
            proof {
                assert(self.spec_keys() =~= old_keys.remove(i as int));
                use_type_invariant(&*self);
                self.lemma_consistent();
                assert forall|key: u64| #[trigger] self@.contains_key(key) <==> old(self)@.remove(k).contains_key(
                    key,
                ) by {
                    if key != k && old_keys.contains(key) {
                        let j = old_keys.index_of(key);
                        if j < i {
                            assert(self.spec_keys()[j] == key);
                        } else {
                            assert(self.spec_keys()[j - 1] == key);
                        }
                    }
                    if self.spec_keys().contains(key) {
                        let j = self.spec_keys().index_of(key);
                        if j < i {
                            assert(old_keys[j] == key);
                            assert(old_keys[j] < old_keys[i as int]);
                        } else {
                            assert(old_keys[j + 1] == key);
                            assert(old_keys[i as int] < old_keys[j + 1]);
                        }
                    }
                }
                assert forall|key: u64| #[trigger] self@.contains_key(key) implies self@[key] == old(
                    self,
                )@.remove(k)[key] by {
                    let j = self.spec_keys().index_of(key);
                    assert(self.spec_keys()[j] == key);
                    if j < i {
                        assert(old_keys[j] == key);
                    } else {
                        assert(old_keys[j + 1] == key);
                    }
                }
                assert(self@ =~= old(self)@.remove(k));
                assert(self.spec_keys().to_set() =~= old_keys.to_set().remove(k)) by {
                    assert forall|key: u64| self.spec_keys().to_set().contains(key) <==> old_keys.to_set().remove(
                        k,
                    ).contains(key) by {
                        assert(self.spec_keys().contains(key) <==> self@.contains_key(key));
                        assert(old_keys.contains(key) <==> old(self)@.contains_key(key));
                    }
                }
            }
            Some(value)
        } else {
            proof {
                assert(!old_keys.contains(k)) by {
                    if old_keys.contains(k) {
                        let j = old_keys.index_of(k);
                        assert(old_keys[j] == k);
                    }
                }
                assert(self@ =~= old(self)@.remove(k));
                assert(self.spec_keys().to_set() =~= old_keys.to_set().remove(k));
            }
            None
        }
    }

    /// Removes all entries.
    pub fn clear(&mut self)
        ensures
            final(self)@ == Map::<u64, V>::empty(),
            final(self).consistent(),
            final(self).spec_keys() == Seq::<u64>::empty(),
    {
        let mut entries: Vec<(u64, V)> = Vec::new();
        std::mem::swap(&mut entries, &mut self.entries);
        proof {
            assert(self.spec_keys() =~= Seq::<u64>::empty());
            use_type_invariant(&*self);
            self.lemma_consistent();
            assert(self@ =~= Map::<u64, V>::empty());
        }
    }

    /// All identifiers, in increasing order.
    pub fn keys(&self) -> (r: Vec<u64>)
        ensures
            r@ == self.spec_keys(),
            self.consistent(),
    {
        proof {
            use_type_invariant(self);
            self.lemma_consistent();
        }
        let mut r: Vec<u64> = Vec::new();
        let mut i: usize = 0;
        while i < self.entries.len()
            invariant
                i <= self.entries@.len(),
                r@ == self.spec_keys().take(i as int),
            decreases self.entries@.len() - i,
        {
            r.push(self.entries[i].0);
            i = i + 1;
            assert(r@ =~= self.spec_keys().take(i as int));
        }
        assert(self.spec_keys().take(i as int) =~= self.spec_keys());
        r
    }
}

impl<V: Clone> Clone for IdMap<V> {
    fn clone(&self) -> (r: Self)
        ensures
            r.spec_keys() == self.spec_keys(),
            r@.dom() == self@.dom(),
            forall|k: u64| #[trigger] r@.contains_key(k) ==> cloned(self@[k], r@[k]),
            r.consistent(),
    {
        proof {
            use_type_invariant(self);
            self.lemma_consistent();
        }
        let mut entries: Vec<(u64, V)> = Vec::new();
        let mut i: usize = 0;
        while i < self.entries.len()
            invariant
                i <= self.entries@.len(),
                entries@.len() == i,
                forall|j: int| 0 <= j < i ==> (#[trigger] entries@[j]).0 == self.entries@[j].0,
                forall|j: int| 0 <= j < i ==> cloned(self.entries@[j].1, (#[trigger] entries@[j]).1),
            decreases self.entries@.len() - i,
        {
            let k = self.entries[i].0;
            let v = self.entries[i].1.clone();
            entries.push((k, v));
            i = i + 1;
        }
        assert(entries@.map_values(|e: (u64, V)| e.0) =~= self.spec_keys());
        let r = Self { entries };
        proof {
            r.lemma_consistent();
            assert(r@.dom() =~= self@.dom());
            assert forall|k: u64| #[trigger] r@.contains_key(k) implies cloned(self@[k], r@[k]) by {
                let j = r.spec_keys().index_of(k);
                assert(r.spec_keys()[j] == k);
            }
        }
        r
    }
}

} // verus!
