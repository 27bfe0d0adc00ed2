use vstd::prelude::*;

verus! {

/// A map from string keys (peer, session and streamer ids) to values, with
/// each key at most once.
pub struct KeyedTable<V> {
    entries: Vec<(String, V)>,
}

impl<V> KeyedTable<V> {
    /// The keys in the table's order.
    pub closed spec fn key_order(&self) -> Seq<Seq<char>> {
        Seq::new(self.entries@.len(), |i: int| self.entries@[i].0@)
    }

    /// The values in the table's order.
    pub closed spec fn value_order(&self) -> Seq<V> {
        Seq::new(self.entries@.len(), |i: int| self.entries@[i].1)
    }

    /// No key occurs twice.
    pub closed spec fn wf(&self) -> bool {
        self.key_order().no_duplicates()
    }
}

impl<V> View for KeyedTable<V> {
    type V = Map<Seq<char>, V>;

    closed spec fn view(&self) -> Map<Seq<char>, V> {
        Map::new(
            |k: Seq<char>| self.key_order().contains(k),
            |k: Seq<char>| self.value_order()[self.key_order().index_of(k)],
        )
    }
}

impl<V> KeyedTable<V> {
    proof fn lemma_index(&self, i: int)
        requires
            self.wf(),
            0 <= i < self.key_order().len(),
        ensures
            self@.dom().contains(self.key_order()[i]),
            self@[self.key_order()[i]] == self.value_order()[i],
    {
        let k = self.key_order()[i];
        assert(self.key_order().contains(k));
        let j = self.key_order().index_of(k);
        assert(0 <= j < self.key_order().len() && self.key_order()[j] == k);
        assert(j == i);
    }

    /// The keys of the table, listed in its order, make up its domain.
    pub proof fn lemma_key_order(&self)
        requires
            self.wf(),
        ensures
            self.key_order().no_duplicates(),
            self.key_order().to_set() == self@.dom(),
            self@.dom().finite(),
            self@.len() == self.key_order().len(),
            self.value_order().len() == self.key_order().len(),
            forall|i: int|
                0 <= i < self.key_order().len() ==> #[trigger] self@[self.key_order()[i]]
                    == self.value_order()[i],
    {
        assert(self.key_order().to_set() =~= self@.dom());
        self.key_order().unique_seq_to_set();
        assert forall|i: int| 0 <= i < self.key_order().len() implies #[trigger] self@[self.key_order()[i]]
            == self.value_order()[i] by {
            self.lemma_index(i);
        }
    }

    /// An empty table.
    pub fn new() -> (t: KeyedTable<V>)
        ensures
            t.wf(),
            t@ == Map::<Seq<char>, V>::empty(),
            t.key_order() == Seq::<Seq<char>>::empty(),
    {
        let t = KeyedTable { entries: Vec::new() };
        assert(t@ =~= Map::<Seq<char>, V>::empty());
        assert(t.key_order() =~= Seq::<Seq<char>>::empty());
        t
    }

    fn position(&self, key: &String) -> (r: Option<usize>)
        ensures
            match r {
                Some(i) => i < self.key_order().len() && self.key_order()[i as int] == key@,
                None => !self.key_order().contains(key@),
            },
    {
        let mut i: usize = 0;
        while i < self.entries.len()
            invariant
                i <= self.entries@.len(),
                forall|j: int| 0 <= j < i ==> self.key_order()[j] != key@,
            decreases self.entries@.len() - i,
        {
            if self.entries[i].0 == *key {
                return Some(i);
            }
            i = i + 1;
        }
        None
    }

    /// How many keys the table holds.
    pub fn len(&self) -> (n: usize)
        requires
            self.wf(),
        ensures
            n == self@.len(),
            n == self.key_order().len(),
    {
        proof {
            self.lemma_key_order();
        }
        self.entries.len()
    }

    /// Whether the table holds no key.
    pub fn is_empty(&self) -> (b: bool)
        requires
            self.wf(),
        ensures
            b == (self@.len() == 0),
            b == (self@ == Map::<Seq<char>, V>::empty()),
    {
        proof {
            self.lemma_key_order();
            if self.entries@.len() == 0 {
                assert(self@ =~= Map::<Seq<char>, V>::empty());
            } else {
                assert(self@.dom().contains(self.key_order()[0]));
            }
        }
        self.entries.len() == 0
    }

    /// Whether `key` is in the table.
    pub fn contains_key(&self, key: &str) -> (b: bool)
        requires
            self.wf(),
        ensures
            b == self@.dom().contains(key@),
    {
        let k = key.to_owned();
        self.position(&k).is_some()
    }

    /// The value stored under `key`.
    pub fn get(&self, key: &str) -> (r: Option<&V>)
        requires
            self.wf(),
        ensures
            r is None <==> !self@.dom().contains(key@),
            r matches Some(v) ==> *v == self@[key@],
    {
        let k = key.to_owned();
        match self.position(&k) {
            Some(i) => {
                proof {
                    self.lemma_index(i as int);
                }
                Some(&self.entries[i].1)
            },
            None => None,
        }
    }

    /// Stores `value` under `key`, and hands back the value it replaces.
    /// A new key goes after the others.
    pub fn insert(&mut self, key: String, value: V) -> (replaced: Option<V>)
        requires
            old(self).wf(),
        ensures
            final(self).wf(),
            final(self)@ == old(self)@.insert(key@, value),
            replaced == (if old(self)@.dom().contains(key@) {
                Some(old(self)@[key@])
            } else {
                None
            }),
            !old(self)@.dom().contains(key@) ==> final(self).key_order() == old(self).key_order().push(key@),
            old(self)@.dom().contains(key@) ==> final(self).key_order() == old(self).key_order(),
    {
        let ghost old_keys = self.key_order();
        let ghost old_vals = self.value_order();
        let ghost k = key@;
        let ghost old_map = self@;
        match self.position(&key) {
            Some(i) => {
                proof {
                    self.lemma_index(i as int);
                }
                let (_, previous) = self.entries.remove(i);
                self.entries.insert(i, (key, value));
                proof {
                    assert(self.key_order() =~= old_keys);
                    assert(self.value_order() =~= old_vals.update(i as int, value));
                    assert forall|q: Seq<char>| #[trigger] self@.dom().contains(q) == old_map.insert(k, value).dom().contains(q) by {}
                    assert forall|q: Seq<char>| self@.dom().contains(q) implies #[trigger] self@[q] == old_map.insert(k, value)[q] by {
                        let j = self.key_order().index_of(q);
                        self.lemma_index(j);
                        if q != k {
                            assert(j != i);
                            assert(old_keys[j] == q);
                            assert(old_vals[j] == self.value_order()[j]);
                            assert(old_map[old_keys[j]] == old_vals[j]) by {
                                assert(old_keys.contains(q));
                                let jj = old_keys.index_of(q);
                                assert(jj == j);
                            }
                        }
                    }
                    assert(self@ =~= old_map.insert(k, value));
                }
                Some(previous)
            },
            None => {
                self.entries.push((key, value));
                proof {
                    assert(self.key_order() =~= old_keys.push(k));
                    assert(self.value_order() =~= old_vals.push(value));
                    assert forall|q: Seq<char>| #[trigger] self@.dom().contains(q) == old_map.insert(k, value).dom().contains(q) by {
                        if old_keys.contains(q) {
                            let j = old_keys.index_of(q);
                            assert(self.key_order()[j] == q);
                        }
                        if q == k {
                            assert(self.key_order()[old_keys.len() as int] == q);
                        }
                        if self.key_order().contains(q) && q != k {
                            let j = self.key_order().index_of(q);
                            assert(j < old_keys.len());
                            assert(old_keys[j] == q);
                        }
                    }
                    assert forall|q: Seq<char>| self@.dom().contains(q) implies #[trigger] self@[q] == old_map.insert(k, value)[q] by {
                        let j = self.key_order().index_of(q);
                        self.lemma_index(j);
                        if q == k {
                            assert(j == old_keys.len());
                        } else {
                            assert(j < old_keys.len());
                            assert(old_keys[j] == q);
                            assert(old_keys.contains(q));
                            let jj = old_keys.index_of(q);
                            assert(jj == j);
                        }
                    }
                    assert(self@ =~= old_map.insert(k, value));
                }
                None
            },
        }
    }

    /// Takes `key` out of the table, and hands back its value. The other
    /// keys keep their order.
    pub fn remove(&mut self, key: &str) -> (removed: Option<V>)
        requires
            old(self).wf(),
        ensures
            final(self).wf(),
            final(self)@ == old(self)@.remove(key@),
            removed == (if old(self)@.dom().contains(key@) {
                Some(old(self)@[key@])
            } else {
                None
            }),
            old(self)@.dom().contains(key@) ==> exists|i: int|
                0 <= i < old(self).key_order().len() && old(self).key_order()[i] == key@
                    && #[trigger] old(self).key_order().remove(i) == final(self).key_order(),
            !old(self)@.dom().contains(key@) ==> final(self).key_order() == old(self).key_order(),
    {
        let ghost old_keys = self.key_order();
        let ghost old_vals = self.value_order();
        let ghost old_map = self@;
        let k = key.to_owned();
        match self.position(&k) {
            Some(i) => {
                proof {
                    self.lemma_index(i as int);
                }
                let (_, previous) = self.entries.remove(i);
                proof {
                    assert(self.key_order() =~= old_keys.remove(i as int));
                    assert(self.value_order() =~= old_vals.remove(i as int));
                    assert forall|q: Seq<char>| #[trigger] self@.dom().contains(q) == old_map.remove(k@).dom().contains(q) by {
                        if self.key_order().contains(q) {
                            let j = self.key_order().index_of(q);
                            if j < i {
                                assert(old_keys[j] == q);
                            } else {
                                assert(old_keys[j + 1] == q);
                            }
                        }
                        if old_keys.contains(q) && q != k@ {
                            let j = old_keys.index_of(q);
                            if j < i {
                                assert(self.key_order()[j] == q);
                            } else {
                                assert(j != i);
                                assert(self.key_order()[j - 1] == q);
                            }
                        }
                    }
                    assert forall|q: Seq<char>| self@.dom().contains(q) implies #[trigger] self@[q] == old_map.remove(k@)[q] by {
                        let j = self.key_order().index_of(q);
                        self.lemma_index(j);
                        let jo = if j < i { j } else { j + 1 };
                        assert(old_keys[jo] == q);
                        assert(old_vals[jo] == self.value_order()[j]);
                        assert(old_keys.contains(q));
                        let jj = old_keys.index_of(q);
                        assert(jj == jo);
                    }
                    assert(self@ =~= old_map.remove(k@));
                    assert(old_keys.remove(i as int) == self.key_order());
                }
                Some(previous)
            },
            None => {
                proof {
                    assert(old_map.remove(k@) =~= old_map);
                }
                None
            },
        }
    }

    /// The keys, in the table's order.
    pub fn keys(&self) -> (ks: Vec<String>)
        requires
            self.wf(),
        ensures
            ks@.len() == self.key_order().len(),
            forall|i: int| 0 <= i < ks@.len() ==> #[trigger] ks@[i]@ == self.key_order()[i],
    {
        let mut ks: Vec<String> = Vec::new();
        let mut i: usize = 0;
        while i < self.entries.len()
            invariant
                i <= self.entries@.len(),
                ks@.len() == i,
                forall|j: int| 0 <= j < i ==> #[trigger] ks@[j]@ == self.key_order()[j],
            decreases self.entries@.len() - i,
        {
            ks.push(self.entries[i].0.clone());
            i = i + 1;
        }
        ks
    }

    /// The entry at position `i` of the table's order.
    pub fn entry_at(&self, i: usize) -> (e: (&String, &V))
        requires
            self.wf(),
            i < self.key_order().len(),
        ensures
            e.0@ == self.key_order()[i as int],
            *e.1 == self.value_order()[i as int],
            *e.1 == self@[e.0@],
    {
        proof {
            self.lemma_index(i as int);
        }
        (&self.entries[i].0, &self.entries[i].1)
    }

    /// A table with the keys of a well-formed one, in the same order, is
    /// well formed.
    pub proof fn lemma_same_keys_wf(&self, other: &Self)
        requires
            self.wf(),
            other.key_order() == self.key_order(),
        ensures
            other.wf(),
    {
    }

    /// The value at position `i` of the table's order, to change in place;
    /// the keys stay as they are.
    pub fn value_at_mut(&mut self, i: usize) -> (v: &mut V)
        requires
            old(self).wf(),
            i < old(self).key_order().len(),
        ensures
            *v == old(self).value_order()[i as int],
            final(self).key_order() == old(self).key_order(),
            final(self).value_order() == old(self).value_order().update(i as int, *final(v)),
    {
        &mut self.entries[i].1
    }
}

} // verus!
