//! Maps keyed by field elements that keep their keys in insertion order; a
//! second insert of a key replaces its value in place.

use vstd::prelude::*;
use crate::felt::{felt_eq, Felt};

verus! {

/// A map from field elements to values, its keys in order of first insertion.
pub struct FeltMap<V> {
    entries: Vec<(Felt, V)>,
    model: Ghost<Map<Seq<u8>, V>>,
}

impl<V> View for FeltMap<V> {
    type V = Map<Seq<u8>, V>;

    closed spec fn view(&self) -> Map<Seq<u8>, V> {
        self.model@
    }
}

impl<V> FeltMap<V> {
    /// The keys, in order of first insertion.
    pub closed spec fn key_order(&self) -> Seq<Seq<u8>> {
        self.entries@.map_values(|e: (Felt, V)| e.0@)
    }

    /// Each key is held once, and the entries hold exactly the map's contents.
    pub closed spec fn wf(&self) -> bool {
        &&& forall|i: int, j: int|
            0 <= i < self.entries@.len() && 0 <= j < self.entries@.len() && i != j
                ==> self.entries@[i].0@ != self.entries@[j].0@
        &&& forall|i: int|
            0 <= i < self.entries@.len() ==> {
                &&& self.model@.contains_key(#[trigger] self.entries@[i].0@)
                &&& self.model@[self.entries@[i].0@] == self.entries@[i].1
            }
        &&& forall|k: Seq<u8>|
            #[trigger] self.model@.contains_key(k) ==> exists|i: int|
                0 <= i < self.entries@.len() && self.entries@[i].0@ == k
    }

    /// The order of keys lists each key of the map once, and no other.
    pub proof fn lemma_key_order(&self)
        requires
            self.wf(),
        ensures
            self.key_order().len() == self@.dom().len(),
            self.key_order().no_duplicates(),
            forall|k: Seq<u8>| self@.contains_key(k) <==> self.key_order().contains(k),
    {
        let ko = self.key_order();
        assert forall|k: Seq<u8>| self@.contains_key(k) <==> ko.contains(k) by {
            if self@.contains_key(k) {
                let i = choose|i: int| 0 <= i < self.entries@.len() && self.entries@[i].0@ == k;
                assert(ko[i] == k);
            }
            if ko.contains(k) {
                let i = choose|i: int| 0 <= i < ko.len() && ko[i] == k;
                assert(self.entries@[i].0@ == k);
            }
        }
        assert(ko.to_set() =~= self@.dom());
        ko.unique_seq_to_set();
    }

    /// An empty map.
    pub fn new() -> (r: FeltMap<V>)
        ensures
            r.wf(),
            r@ == Map::<Seq<u8>, V>::empty(),
            r.key_order() == Seq::<Seq<u8>>::empty(),
    {
        let r = FeltMap { entries: Vec::new(), model: Ghost(Map::empty()) };
        assert(r.key_order() =~= Seq::<Seq<u8>>::empty());
        r
    }

    /// The number of keys.
    pub fn len(&self) -> (r: usize)
        requires
            self.wf(),
        ensures
            r == self.key_order().len(),
    {
        self.entries.len()
    }

    /// The `i`-th key in order.
    pub fn key_at(&self, i: usize) -> (r: Felt)
        requires
            self.wf(),
            i < self.key_order().len(),
        ensures
            r@ == self.key_order()[i as int],
            self@.contains_key(r@),
    {
        self.entries[i].0
    }

    /// The value of the `i`-th key in order.
    pub fn value_at(&self, i: usize) -> (r: &V)
        requires
            self.wf(),
            i < self.key_order().len(),
        ensures
            *r == self@[self.key_order()[i as int]],
    {
        &self.entries[i].1
    }

    /// The index of `key`, if it is held.
    fn find(&self, key: &Felt) -> (r: Option<usize>)
        requires
            self.wf(),
        ensures
            match r {
                Some(i) => i < self.entries@.len() && self.entries@[i as int].0@ == key@,
                None => !self@.contains_key(key@),
            },
    {
        let mut i: usize = 0;
        while i < self.entries.len()
            invariant
                self.wf(),
                0 <= i <= self.entries@.len(),
                forall|j: int| 0 <= j < i ==> self.entries@[j].0@ != key@,
            decreases self.entries@.len() - i,
        {
            if felt_eq(&self.entries[i].0, key) {
                return Some(i);
            }
            i += 1;
        }
        None
    }

    /// The value held at `key`, if any.
    pub fn get(&self, key: &Felt) -> (r: Option<&V>)
        requires
            self.wf(),
        ensures
            r.is_some() == self@.contains_key(key@),
            r matches Some(v) ==> *v == self@[key@],
    {
        match self.find(key) {
            Some(i) => Some(&self.entries[i].1),
            None => None,
        }
    }

    /// Whether `key` is held.
    pub fn contains_key(&self, key: &Felt) -> (r: bool)
        requires
            self.wf(),
        ensures
            r == self@.contains_key(key@),
    {
        self.find(key).is_some()
    }

    /// Sets `key` to `value`: in place where the key is held, else last.
    pub fn insert(&mut self, key: Felt, value: V)
        requires
            old(self).wf(),
        ensures
            final(self).wf(),
            final(self)@ == old(self)@.insert(key@, value),
            old(self)@.contains_key(key@) ==> final(self).key_order() == old(self).key_order(),
            !old(self)@.contains_key(key@) ==> final(self).key_order() == old(self).key_order().push(key@),
    {
        let ghost m0 = self.model@;
        let ghost v = value;
        match self.find(&key) {
            Some(i) => {
                self.entries.set(i, (key, value));
                self.model = Ghost(m0.insert(key@, v));
                proof {
                    assert forall|k: Seq<u8>| #[trigger] self.model@.contains_key(k) implies exists|j: int|
                        0 <= j < self.entries@.len() && self.entries@[j].0@ == k by {
                        if k != key@ {
                            let j = choose|j: int| 0 <= j < old(self).entries@.len() && old(self).entries@[j].0@ == k;
                            assert(self.entries@[j].0@ == k);
                        } else {
                            assert(self.entries@[i as int].0@ == k);
                        }
                    }
                    assert(self.key_order() =~= old(self).key_order());
                }
            },
            None => {
                self.entries.push((key, value));
                self.model = Ghost(m0.insert(key@, v));
                proof {
                    let n = self.entries@.len() - 1;
                    assert forall|k: Seq<u8>| #[trigger] self.model@.contains_key(k) implies exists|j: int|
                        0 <= j < self.entries@.len() && self.entries@[j].0@ == k by {
                        if k != key@ {
                            let j = choose|j: int| 0 <= j < old(self).entries@.len() && old(self).entries@[j].0@ == k;
                            assert(self.entries@[j].0@ == k);
                        } else {
                            assert(self.entries@[n].0@ == k);
                        }
                    }
                    assert(self.key_order() =~= old(self).key_order().push(key@));
                }
            },
        }
    }
}

} // verus!
