use vstd::prelude::*;

verus! {

/// A map keyed by unit names that remembers the order in which its keys
/// arrived.  Every key occurs once; an entry is reached by its key or by its
/// position.
pub struct UnitMap<V> {
    names: Vec<String>,
    values: Vec<V>,
}

impl<V> View for UnitMap<V> {
    type V = Map<Seq<char>, V>;

    /// The map from each key to its value.
    open spec fn view(&self) -> Map<Seq<char>, V> {
        Map::new(
            |k: Seq<char>| self.keys().contains(k),
            |k: Seq<char>| self.values()[self.keys().index_of(k)],
        )
    }
}

impl<V> UnitMap<V> {
    /// The keys, in order of arrival.
    pub closed spec fn keys(&self) -> Seq<Seq<char>> {
        Seq::new(self.names@.len(), |i: int| self.names@[i]@)
    }

    /// The values, each at the position of its key.
    pub closed spec fn values(&self) -> Seq<V> {
        self.values@
    }

    /// No key occurs twice, and every key has its value.
    #[verifier::type_invariant]
    pub open spec fn wf(&self) -> bool {
        &&& self.keys().len() == self.values().len()
        &&& self.keys().no_duplicates()
    }

    /// In a well-formed map the entry at position `i` is the entry of the key
    /// at position `i`.
    pub proof fn lemma_entry_at(&self, i: int)
        requires
            self.wf(),
            0 <= i < self.keys().len(),
        ensures
            self@.dom().contains(self.keys()[i]),
            self@[self.keys()[i]] == self.values()[i],
    {
        let k = self.keys()[i];
        assert(self.keys().contains(k));
        assert(self.keys().index_of(k) == i);
    }

    /// The empty map.
    pub fn new() -> (m: Self)
        ensures
            m.keys() == Seq::<Seq<char>>::empty(),
            m.values() == Seq::<V>::empty(),
            m@ == Map::<Seq<char>, V>::empty(),
    {
        let m = UnitMap { names: Vec::new(), values: Vec::new() };
        assert(m.keys() =~= Seq::<Seq<char>>::empty());
        assert(m@ =~= Map::<Seq<char>, V>::empty());
        m
    }

    /// The number of entries.
    pub fn len(&self) -> (n: usize)
        ensures
            n == self.keys().len(),
            n == self.values().len(),
    {
        proof {
            use_type_invariant(self);
        }
        self.names.len()
    }

    /// The position of `key`, if the map holds it.
    pub fn position(&self, key: &String) -> (r: Option<usize>)
        ensures
            match r {
                Some(i) => i < self.keys().len() && self.keys()[i as int] == key@,
                None => !self.keys().contains(key@),
            },
    {
        let mut i: usize = 0;
        while i < self.names.len()
            invariant
                i <= self.names.len(),
                forall|j: int| 0 <= j < i ==> self.names@[j]@ != key@,
            decreases self.names.len() - i,
        {
            if self.names[i] == *key {
                return Some(i);
            }
            i += 1;
        }
        None
    }

    /// The key at position `i`.
    pub fn key_at(&self, i: usize) -> (k: &String)
        requires
            i < self.keys().len(),
        ensures
            k@ == self.keys()[i as int],
    {
        &self.names[i]
    }

    /// The value at position `i`.
    pub fn value_at(&self, i: usize) -> (v: &V)
        requires
            i < self.keys().len(),
        ensures
            *v == self.values()[i as int],
    {
        proof {
            use_type_invariant(self);
        }
        &self.values[i]
    }

    /// The value at position `i`, to be changed in place.  The keys stay as
    /// they are.
    pub fn value_at_mut(&mut self, i: usize) -> (v: &mut V)
        requires
            i < old(self).keys().len(),
        ensures
            *v == old(self).values()[i as int],
            final(self).keys() == old(self).keys(),
            final(self).values() == old(self).values().update(i as int, *final(v)),
    {
        proof {
            use_type_invariant(&*self);
        }
        &mut self.values[i]
    }

    /// The value stored under `key`, if any.
    pub fn get(&self, key: &String) -> (r: Option<&V>)
        ensures
            match r {
                Some(v) => self@.dom().contains(key@) && *v == self@[key@],
                None => !self@.dom().contains(key@),
            },
    {
        proof {
            use_type_invariant(self);
        }
        match self.position(key) {
            Some(i) => {
                proof {
                    self.lemma_entry_at(i as int);
                }
                Some(&self.values[i])
            },
            None => None,
        }
    }

    /// Stores `value` under `key`.  A key that is already there keeps its
    /// position and takes the new value; a new key goes to the end.
    pub fn insert(&mut self, key: String, value: V)
        ensures
            final(self)@ == old(self)@.insert(key@, value),
            old(self).keys().contains(key@) ==> {
                &&& final(self).keys() == old(self).keys()
                &&& final(self).values() == old(self).values().update(
                    old(self).keys().index_of(key@),
                    value,
                )
            },
            !old(self).keys().contains(key@) ==> {
                &&& final(self).keys() == old(self).keys().push(key@)
                &&& final(self).values() == old(self).values().push(value)
            },
    {
        proof {
            use_type_invariant(&*self);
        }
        match self.position(&key) {
            Some(i) => {
                self.values[i] = value;
                assert(old(self).keys().index_of(key@) == i);
            },
            None => {
                let mut grown = UnitMap::new();
                core::mem::swap(self, &mut grown);
                let UnitMap { mut names, mut values } = grown;
                names.push(key);
                values.push(value);
                let ghost keys = Seq::new(names@.len(), |i: int| names@[i]@);
                assert(keys =~= old(self).keys().push(key@));
                assert(keys.no_duplicates());
                *self = UnitMap { names, values };
            },
        }
        proof {
            Self::lemma_insert_view(*old(self), *self, key@, value);
        }
    }

    /// What `insert` does to the positions is what `Map::insert` does to the
    /// view.
    proof fn lemma_insert_view(before: Self, after: Self, key: Seq<char>, value: V)
        requires
            before.wf(),
            before.keys().contains(key) ==> {
                &&& after.keys() == before.keys()
                &&& after.values() == before.values().update(before.keys().index_of(key), value)
            },
            !before.keys().contains(key) ==> {
                &&& after.keys() == before.keys().push(key)
                &&& after.values() == before.values().push(value)
            },
        ensures
            after.wf(),
            after@ == before@.insert(key, value),
    {
        let target = before@.insert(key, value);
        assert forall|k: Seq<char>| after@.dom().contains(k) <==> target.dom().contains(k) by {
            if before.keys().contains(k) {
                let p = before.keys().index_of(k);
                assert(after.keys()[p] == k);
            }
            if k == key {
                if !before.keys().contains(key) {
                    assert(after.keys()[before.keys().len() as int] == k);
                }
            }
        }
        assert forall|k: Seq<char>| #[trigger] after@.dom().contains(k) implies after@[k]
            == target[k] by {
            let p = after.keys().index_of(k);
            assert(after.keys()[p] == k);
            if k != key {
                assert(before.keys()[p] == k);
                assert(before.keys().index_of(k) == p);
            } else if before.keys().contains(key) {
                assert(before.keys().index_of(k) == p);
            }
        }
        assert(after@ =~= target);
    }
}

} // verus!
