//! One column of the keyed store: a finite map from byte keys to byte values.

use vstd::prelude::*;
use crate::bytes::{
    bytes_eq, bytes_lt, copy_bytes, has_prefix, lemma_lex_irreflexive, lemma_lex_total, lemma_lex_transitive, lex_lt,
    opt_bytes, starts_with,
};

verus! {

/// What a map holds at `k`, if anything.
pub open spec fn lookup(m: Map<Seq<u8>, Seq<u8>>, k: Seq<u8>) -> Option<Seq<u8>> {
    if m.contains_key(k) {
        Some(m[k])
    } else {
        None
    }
}

/// The entries of `m` whose keys do not start with `p`.
pub open spec fn without_prefix(m: Map<Seq<u8>, Seq<u8>>, p: Seq<u8>) -> Map<Seq<u8>, Seq<u8>> {
    m.restrict(m.dom().filter(|k: Seq<u8>| !has_prefix(k, p)))
}

/// The entries of `m` whose keys start with `p`.
pub open spec fn with_prefix(m: Map<Seq<u8>, Seq<u8>>, p: Seq<u8>) -> Map<Seq<u8>, Seq<u8>> {
    m.restrict(m.dom().filter(|k: Seq<u8>| has_prefix(k, p)))
}

/// The keys and values of a list of pairs, as byte strings.
pub open spec fn pair_views(s: Seq<(Vec<u8>, Vec<u8>)>) -> Seq<(Seq<u8>, Seq<u8>)> {
    s.map_values(|e: (Vec<u8>, Vec<u8>)| (e.0@, e.1@))
}

/// The byte strings of a list of byte vectors.
pub open spec fn key_views(s: Seq<Vec<u8>>) -> Seq<Seq<u8>> {
    s.map_values(|v: Vec<u8>| v@)
}

/// Whether the pairs `s` list the contents of `m` exactly, each key once.
pub open spec fn lists_exactly(s: Seq<(Seq<u8>, Seq<u8>)>, m: Map<Seq<u8>, Seq<u8>>) -> bool {
    &&& forall|i: int, j: int| 0 <= i < s.len() && 0 <= j < s.len() && i != j ==> s[i].0 != s[j].0
    &&& forall|i: int| 0 <= i < s.len() ==> m.contains_key(#[trigger] s[i].0) && m[s[i].0] == s[i].1
    &&& forall|k: Seq<u8>| #[trigger] m.contains_key(k) ==> exists|i: int| 0 <= i < s.len() && s[i].0 == k
}

/// Whether the pairs come in strictly increasing lexicographic order of key.
pub open spec fn sorted_by_key(s: Seq<(Seq<u8>, Seq<u8>)>) -> bool {
    forall|i: int, j: int| 0 <= i < j < s.len() ==> lex_lt(#[trigger] s[i].0, #[trigger] s[j].0)
}

/// Whether no two pairs share a key.
pub open spec fn keys_unique(s: Seq<(Seq<u8>, Seq<u8>)>) -> bool {
    forall|i: int, j: int| 0 <= i < s.len() && 0 <= j < s.len() && i != j ==> s[i].0 != s[j].0
}

/// The pairs of `v`, in increasing lexicographic order of key.
fn sort_by_key(v: &Vec<(Vec<u8>, Vec<u8>)>) -> (r: Vec<(Vec<u8>, Vec<u8>)>)
    requires
        keys_unique(pair_views(v@)),
    ensures
        sorted_by_key(pair_views(r@)),
        forall|x: (Seq<u8>, Seq<u8>)| pair_views(r@).contains(x) <==> pair_views(v@).contains(x),
{
    let ghost pv = pair_views(v@);
    let mut out: Vec<(Vec<u8>, Vec<u8>)> = Vec::new();
    let mut i: usize = 0;
    assert(pair_views(out@).to_set() =~= pv.subrange(0, 0).to_set());
    while i < v.len()
        invariant
            pv == pair_views(v@),
            keys_unique(pv),
            0 <= i <= v@.len(),
            sorted_by_key(pair_views(out@)),
            pair_views(out@).to_set() == pv.subrange(0, i as int).to_set(),
        decreases v@.len() - i,
    {
        let k = copy_bytes(v[i].0.as_slice());
        let val = copy_bytes(v[i].1.as_slice());
        let ghost o = pair_views(out@);
        let ghost xv = (k@, val@);
        assert(pv[i as int] == xv);
        let mut j: usize = 0;
        while j < out.len() && !bytes_lt(k.as_slice(), out[j].0.as_slice())
            invariant
                o == pair_views(out@),
                0 <= j <= out@.len(),
                forall|a: int| 0 <= a < j ==> !lex_lt(k@, #[trigger] o[a].0),
            decreases out@.len() - j,
        {
            assert(o[j as int].0 == out@[j as int].0@);
            j += 1;
        }
        proof {
            if j < out@.len() {
                assert(o[j as int].0 == out@[j as int].0@);
            }
            lemma_sort_step(o, j as int, pv, i as int, xv);
        }
        out.insert(j, (k, val));
        assert(pair_views(out@) =~= o.insert(j as int, xv));
        i += 1;
    }
    proof {
        assert(pv.subrange(0, v@.len() as int) =~= pv);
        assert forall|x: (Seq<u8>, Seq<u8>)| pair_views(out@).contains(x) <==> pv.contains(x) by {
            assert(pair_views(out@).to_set().contains(x) == pair_views(out@).contains(x));
            assert(pv.to_set().contains(x) == pv.contains(x));
        }
    }
    out
}

/// One step of the insertion sort: the `i`-th pair, placed at `j`, keeps the
/// list sorted and adds it to the pairs held.
proof fn lemma_sort_step(o: Seq<(Seq<u8>, Seq<u8>)>, j: int, pv: Seq<(Seq<u8>, Seq<u8>)>, i: int, x: (Seq<u8>, Seq<u8>))
    requires
        sorted_by_key(o),
        o.to_set() == pv.subrange(0, i).to_set(),
        keys_unique(pv),
        0 <= i < pv.len(),
        x == pv[i],
        0 <= j <= o.len(),
        forall|a: int| 0 <= a < j ==> !lex_lt(x.0, #[trigger] o[a].0),
        j < o.len() ==> lex_lt(x.0, o[j].0),
    ensures
        sorted_by_key(o.insert(j, x)),
        o.insert(j, x).to_set() == pv.subrange(0, i + 1).to_set(),
{
    assert forall|a: int| 0 <= a < o.len() implies #[trigger] o[a].0 != x.0 by {
        assert(o.to_set().contains(o[a]));
        assert(pv.subrange(0, i).contains(o[a]));
        let b = choose|b: int| 0 <= b < i && pv.subrange(0, i)[b] == o[a];
        assert(pv[b] == o[a]);
    }
    lemma_insert_keeps_sorted(o, j, x);
    let o2 = o.insert(j, x);
    assert forall|y: (Seq<u8>, Seq<u8>)| o2.contains(y) <==> o.contains(y) || y == x by {
        if o2.contains(y) {
            let a = choose|a: int| 0 <= a < o2.len() && o2[a] == y;
            if a < j {
                assert(o[a] == y);
            } else if a > j {
                assert(o[a - 1] == y);
            }
        }
        if o.contains(y) {
            let a = choose|a: int| 0 <= a < o.len() && o[a] == y;
            if a < j {
                assert(o2[a] == y);
            } else {
                assert(o2[a + 1] == y);
            }
        }
        if y == x {
            assert(o2[j] == y);
        }
    }
    assert(o2.to_set() =~= o.to_set().insert(x));
    assert(pv.subrange(0, i + 1) =~= pv.subrange(0, i).push(x));
    pv.subrange(0, i).lemma_push_to_set_commute(x);
}

/// Inserting a pair with a new key where the keys before it are smaller and
/// the key after it larger keeps a list sorted.
proof fn lemma_insert_keeps_sorted(o: Seq<(Seq<u8>, Seq<u8>)>, j: int, x: (Seq<u8>, Seq<u8>))
    requires
        sorted_by_key(o),
        0 <= j <= o.len(),
        forall|a: int| 0 <= a < j ==> !lex_lt(x.0, #[trigger] o[a].0),
        j < o.len() ==> lex_lt(x.0, o[j].0),
        forall|a: int| 0 <= a < o.len() ==> #[trigger] o[a].0 != x.0,
    ensures
        sorted_by_key(o.insert(j, x)),
{
    let o2 = o.insert(j, x);
    let k = x.0;
    assert forall|p: int, q: int| 0 <= p < q < o2.len() implies lex_lt(#[trigger] o2[p].0, #[trigger] o2[q].0) by {
        if q < j {
            assert(o2[p] == o[p] && o2[q] == o[q]);
        } else if p > j {
            assert(o2[p] == o[p - 1] && o2[q] == o[q - 1]);
        } else if p < j && q > j {
            assert(o2[p] == o[p] && o2[q] == o[q - 1]);
        } else if p < j && q == j {
            assert(o2[p] == o[p]);
            assert(!lex_lt(k, o[p].0));
            assert(o[p].0 != k);
            lemma_lex_total(k, o[p].0);
        } else {
            assert(p == j && q > j);
            assert(o2[q] == o[q - 1]);
            if q - 1 > j {
                assert(lex_lt(o[j].0, o[q - 1].0));
                lemma_lex_transitive(k, o[j].0, o[q - 1].0);
            }
        }
    }
}

/// A list sorted strictly by key holds each key once, and a list with the
/// same pairs as one that holds a map exactly holds it too.
proof fn lemma_sorted_lists_exactly(s: Seq<(Seq<u8>, Seq<u8>)>, t: Seq<(Seq<u8>, Seq<u8>)>, m: Map<Seq<u8>, Seq<u8>>)
    requires
        sorted_by_key(s),
        lists_exactly(t, m),
        forall|x: (Seq<u8>, Seq<u8>)| s.contains(x) <==> t.contains(x),
    ensures
        lists_exactly(s, m),
{
    assert forall|i: int, j: int| 0 <= i < s.len() && 0 <= j < s.len() && i != j implies s[i].0 != s[j].0 by {
        lemma_lex_irreflexive(s[i].0);
        if i < j {
            assert(lex_lt(s[i].0, s[j].0));
        } else {
            assert(lex_lt(s[j].0, s[i].0));
        }
    }
    assert forall|i: int| 0 <= i < s.len() implies m.contains_key(#[trigger] s[i].0) && m[s[i].0] == s[i].1 by {
        assert(s.contains(s[i]));
        let j = choose|j: int| 0 <= j < t.len() && t[j] == s[i];
        assert(m.contains_key(t[j].0));
    }
    assert forall|k: Seq<u8>| #[trigger] m.contains_key(k) implies exists|i: int| 0 <= i < s.len() && s[i].0 == k by {
        let j = choose|j: int| 0 <= j < t.len() && t[j].0 == k;
        assert(t.contains(t[j]));
        let i = choose|i: int| 0 <= i < s.len() && s[i] == t[j];
    }
}

/// A key and its value.
pub struct Entry {
    pub key: Vec<u8>,
    pub value: Vec<u8>,
}

/// The keys and values of a sequence of entries, as byte strings.
pub open spec fn entry_views(s: Seq<Entry>) -> Seq<(Seq<u8>, Seq<u8>)> {
    s.map_values(|e: Entry| (e.key@, e.value@))
}

/// A finite map from byte keys to byte values; each key is held once.
pub struct Table {
    entries: Vec<Entry>,
    model: Ghost<Map<Seq<u8>, Seq<u8>>>,
}

impl View for Table {
    type V = Map<Seq<u8>, Seq<u8>>;

    closed spec fn view(&self) -> Map<Seq<u8>, Seq<u8>> {
        self.model@
    }
}

impl Table {
    /// The entries hold each key once, and hold exactly the map's contents.
    pub closed spec fn wf(&self) -> bool {
        &&& forall|i: int, j: int|
            0 <= i < self.entries@.len() && 0 <= j < self.entries@.len() && i != j
                ==> self.entries@[i].key@ != self.entries@[j].key@
        &&& forall|i: int|
            0 <= i < self.entries@.len() ==> {
                &&& self.model@.contains_key(#[trigger] self.entries@[i].key@)
                &&& self.model@[self.entries@[i].key@] == self.entries@[i].value@
            }
        &&& forall|k: Seq<u8>|
            #[trigger] self.model@.contains_key(k) ==> exists|i: int|
                0 <= i < self.entries@.len() && self.entries@[i].key@ == k
    }

    /// An empty table.
    pub fn new() -> (r: Table)
        ensures
            r.wf(),
            r@ == Map::<Seq<u8>, Seq<u8>>::empty(),
    {
        Table { entries: Vec::new(), model: Ghost(Map::empty()) }
    }

    /// The index of the entry with key `key`, if there is one.
    fn find(&self, key: &[u8]) -> (r: Option<usize>)
        requires
            self.wf(),
        ensures
            match r {
                Some(i) => i < self.entries@.len() && self.entries@[i as int].key@ == key@,
                None => !self@.contains_key(key@),
            },
    {
        let mut i: usize = 0;
        while i < self.entries.len()
            invariant
                self.wf(),
                0 <= i <= self.entries@.len(),
                forall|j: int| 0 <= j < i ==> self.entries@[j].key@ != key@,
            decreases self.entries@.len() - i,
        {
            if bytes_eq(self.entries[i].key.as_slice(), key) {
                return Some(i);
            }
            i += 1;
        }
        None
    }

    /// The value held at `key`.
    pub fn get(&self, key: &[u8]) -> (r: Option<Vec<u8>>)
        requires
            self.wf(),
        ensures
            opt_bytes(r) == lookup(self@, key@),
    {
        match self.find(key) {
            Some(i) => Some(copy_bytes(self.entries[i].value.as_slice())),
            None => None,
        }
    }

    /// Whether a value is held at `key`.
    pub fn contains(&self, key: &[u8]) -> (r: bool)
        requires
            self.wf(),
        ensures
            r == self@.contains_key(key@),
    {
        self.find(key).is_some()
    }

    /// Sets `key` to `value`; returns the value held there before.
    pub fn insert(&mut self, key: &[u8], value: &[u8]) -> (r: Option<Vec<u8>>)
        requires
            old(self).wf(),
        ensures
            final(self).wf(),
            final(self)@ == old(self)@.insert(key@, value@),
            opt_bytes(r) == lookup(old(self)@, key@),
    {
        let ghost m0 = self.model@;
        match self.find(key) {
            Some(i) => {
                let prev = copy_bytes(self.entries[i].value.as_slice());
                let e = Entry { key: copy_bytes(key), value: copy_bytes(value) };
                self.entries.set(i, e);
                self.model = Ghost(m0.insert(key@, value@));
                proof {
                    assert forall|k: Seq<u8>| #[trigger] self.model@.contains_key(k) implies exists|j: int|
                        0 <= j < self.entries@.len() && self.entries@[j].key@ == k by {
                        if k != key@ {
                            let j = choose|j: int| 0 <= j < self.entries@.len() && old(self).entries@[j].key@ == k;
                            assert(self.entries@[j].key@ == k);
                        } else {
                            assert(self.entries@[i as int].key@ == k);
                        }
                    }
                }
                Some(prev)
            },
            None => {
                let e = Entry { key: copy_bytes(key), value: copy_bytes(value) };
                self.entries.push(e);
                self.model = Ghost(m0.insert(key@, value@));
                proof {
                    let n = self.entries@.len() - 1;
                    assert forall|k: Seq<u8>| #[trigger] self.model@.contains_key(k) implies exists|j: int|
                        0 <= j < self.entries@.len() && self.entries@[j].key@ == k by {
                        if k != key@ {
                            let j = choose|j: int| 0 <= j < old(self).entries@.len() && old(self).entries@[j].key@ == k;
                            assert(self.entries@[j].key@ == k);
                        } else {
                            assert(self.entries@[n].key@ == k);
                        }
                    }
                }
                None
            },
        }
    }

    /// Removes `key`; returns the value held there before.
    pub fn remove(&mut self, key: &[u8]) -> (r: Option<Vec<u8>>)
        requires
            old(self).wf(),
        ensures
            final(self).wf(),
            final(self)@ == old(self)@.remove(key@),
            opt_bytes(r) == lookup(old(self)@, key@),
    {
        let ghost m0 = self.model@;
        match self.find(key) {
            Some(i) => {
                let e = self.entries.remove(i);
                self.model = Ghost(m0.remove(key@));
                proof {
                    let old_e = old(self).entries@;
                    assert forall|j: int| 0 <= j < self.entries@.len() implies {
                        &&& self.model@.contains_key(#[trigger] self.entries@[j].key@)
                        &&& self.model@[self.entries@[j].key@] == self.entries@[j].value@
                    } by {
                        if j < i {
                            assert(self.entries@[j] == old_e[j]);
                        } else {
                            assert(self.entries@[j] == old_e[j + 1]);
                        }
                    }
                    assert forall|k: Seq<u8>| #[trigger] self.model@.contains_key(k) implies exists|j: int|
                        0 <= j < self.entries@.len() && self.entries@[j].key@ == k by {
                        let j = choose|j: int| 0 <= j < old_e.len() && old_e[j].key@ == k;
                        assert(j != i);
                        if j < i {
                            assert(self.entries@[j] == old_e[j]);
                        } else {
                            assert(self.entries@[j - 1] == old_e[j]);
                        }
                    }
                    assert forall|a: int, b: int|
                        0 <= a < self.entries@.len() && 0 <= b < self.entries@.len() && a != b
                        implies self.entries@[a].key@ != self.entries@[b].key@ by {
                        let oa = if a < i { a } else { a + 1 };
                        let ob = if b < i { b } else { b + 1 };
                        assert(self.entries@[a] == old_e[oa]);
                        assert(self.entries@[b] == old_e[ob]);
                    }
                }
                Some(e.value)
            },
            None => {
                assert(m0.remove(key@) =~= m0);
                None
            },
        }
    }
}

impl Table {
    /// A copy of the table.
    pub fn duplicate(&self) -> (r: Table)
        requires
            self.wf(),
        ensures
            r.wf(),
            r@ == self@,
    {
        let mut entries: Vec<Entry> = Vec::new();
        let mut i: usize = 0;
        while i < self.entries.len()
            invariant
                self.wf(),
                0 <= i <= self.entries@.len(),
                entries@.len() == i,
                forall|j: int| 0 <= j < i ==> #[trigger] entries@[j].key@ == self.entries@[j].key@
                    && entries@[j].value@ == self.entries@[j].value@,
            decreases self.entries@.len() - i,
        {
            let k = copy_bytes(self.entries[i].key.as_slice());
            let v = copy_bytes(self.entries[i].value.as_slice());
            entries.push(Entry { key: k, value: v });
            i += 1;
        }
        let r = Table { entries, model: Ghost(self.model@) };
        assert forall|k: Seq<u8>| #[trigger] r.model@.contains_key(k) implies exists|j: int|
            0 <= j < r.entries@.len() && r.entries@[j].key@ == k by {
            let j = choose|j: int| 0 <= j < self.entries@.len() && self.entries@[j].key@ == k;
            assert(r.entries@[j].key@ == k);
        }
        r
    }

    /// The keys of the table.
    pub fn keys(&self) -> (r: Vec<Vec<u8>>)
        requires
            self.wf(),
        ensures
            forall|k: Seq<u8>| self@.contains_key(k) <==> key_views(r@).contains(k),
    {
        let mut r: Vec<Vec<u8>> = Vec::new();
        let mut i: usize = 0;
        while i < self.entries.len()
            invariant
                self.wf(),
                0 <= i <= self.entries@.len(),
                r@.len() == i,
                forall|j: int| 0 <= j < i ==> #[trigger] r@[j]@ == self.entries@[j].key@,
            decreases self.entries@.len() - i,
        {
            r.push(copy_bytes(self.entries[i].key.as_slice()));
            i += 1;
        }
        assert forall|k: Seq<u8>| self@.contains_key(k) <==> key_views(r@).contains(k) by {
            if self@.contains_key(k) {
                let j = choose|j: int| 0 <= j < self.entries@.len() && self.entries@[j].key@ == k;
                assert(key_views(r@)[j] == k);
            }
            if key_views(r@).contains(k) {
                let j = choose|j: int| 0 <= j < key_views(r@).len() && key_views(r@)[j] == k;
                assert(r@[j]@ == k);
            }
        }
        r
    }

    /// The keys and values whose keys start with `prefix`, in increasing
    /// lexicographic order of key.
    pub fn get_by_prefix(&self, prefix: &[u8]) -> (r: Vec<(Vec<u8>, Vec<u8>)>)
        requires
            self.wf(),
        ensures
            lists_exactly(pair_views(r@), with_prefix(self@, prefix@)),
            sorted_by_key(pair_views(r@)),
    {
        let found = self.scan_prefix(prefix);
        let sorted = sort_by_key(&found);
        proof {
            lemma_sorted_lists_exactly(pair_views(sorted@), pair_views(found@), with_prefix(self@, prefix@));
        }
        sorted
    }

    /// The keys and values whose keys start with `prefix`, in storage order.
    fn scan_prefix(&self, prefix: &[u8]) -> (r: Vec<(Vec<u8>, Vec<u8>)>)
        requires
            self.wf(),
        ensures
            lists_exactly(pair_views(r@), with_prefix(self@, prefix@)),
    {
        let ghost m = with_prefix(self@, prefix@);
        let mut r: Vec<(Vec<u8>, Vec<u8>)> = Vec::new();
        let mut i: usize = 0;
        while i < self.entries.len()
            invariant
                self.wf(),
                m == with_prefix(self@, prefix@),
                0 <= i <= self.entries@.len(),
                forall|a: int| 0 <= a < r@.len() ==> exists|j: int|
                    0 <= j < i && #[trigger] r@[a].0@ == self.entries@[j].key@,
                forall|a: int| 0 <= a < r@.len() ==> m.contains_key(#[trigger] r@[a].0@) && m[r@[a].0@] == r@[a].1@,
                forall|a: int, b: int| 0 <= a < r@.len() && 0 <= b < r@.len() && a != b ==> r@[a].0@ != r@[b].0@,
                forall|j: int| 0 <= j < i && has_prefix(#[trigger] self.entries@[j].key@, prefix@) ==> exists|a: int|
                    0 <= a < r@.len() && r@[a].0@ == self.entries@[j].key@,
            decreases self.entries@.len() - i,
        {
            if starts_with(self.entries[i].key.as_slice(), prefix) {
                let k = copy_bytes(self.entries[i].key.as_slice());
                let v = copy_bytes(self.entries[i].value.as_slice());
                let ghost r0 = r@;
                r.push((k, v));
                proof {
                    let n = r0.len() as int;
                    assert forall|a: int| 0 <= a < r@.len() implies exists|j: int|
                        0 <= j < i + 1 && #[trigger] r@[a].0@ == self.entries@[j].key@ by {
                        if a < n {
                            assert(r@[a] == r0[a]);
                            let j = choose|j: int| 0 <= j < i && r0[a].0@ == self.entries@[j].key@;
                        } else {
                            assert(r@[a].0@ == self.entries@[i as int].key@);
                        }
                    }
                    assert forall|a: int, b: int| 0 <= a < r@.len() && 0 <= b < r@.len() && a != b
                        implies r@[a].0@ != r@[b].0@ by {
                        if a < n && b < n {
                            assert(r@[a] == r0[a] && r@[b] == r0[b]);
                        } else if a < n {
                            assert(r@[a] == r0[a]);
                            let j = choose|j: int| 0 <= j < i && r0[a].0@ == self.entries@[j].key@;
                        } else if b < n {
                            assert(r@[b] == r0[b]);
                            let j = choose|j: int| 0 <= j < i && r0[b].0@ == self.entries@[j].key@;
                        }
                    }
                    assert forall|j: int| 0 <= j < i + 1 && has_prefix(#[trigger] self.entries@[j].key@, prefix@)
                        implies exists|a: int| 0 <= a < r@.len() && r@[a].0@ == self.entries@[j].key@ by {
                        if j < i {
                            let a = choose|a: int| 0 <= a < r0.len() && r0[a].0@ == self.entries@[j].key@;
                            assert(r@[a] == r0[a]);
                        } else {
                            assert(r@[n].0@ == self.entries@[j].key@);
                        }
                    }
                    assert forall|a: int| 0 <= a < r@.len()
                        implies m.contains_key(#[trigger] r@[a].0@) && m[r@[a].0@] == r@[a].1@ by {
                        if a < n {
                            assert(r@[a] == r0[a]);
                        } else {
                            assert(self@.contains_key(self.entries@[i as int].key@));
                        }
                    }
                }
            }
            i += 1;
        }
        proof {
            let s = pair_views(r@);
            assert forall|a: int| 0 <= a < s.len() implies m.contains_key(#[trigger] s[a].0) && m[s[a].0] == s[a].1 by {
                assert(s[a] == (r@[a].0@, r@[a].1@));
            }
            assert forall|a: int, b: int| 0 <= a < s.len() && 0 <= b < s.len() && a != b implies s[a].0 != s[b].0 by {
                assert(s[a] == (r@[a].0@, r@[a].1@));
                assert(s[b] == (r@[b].0@, r@[b].1@));
            }
            assert forall|k: Seq<u8>| #[trigger] m.contains_key(k) implies exists|a: int| 0 <= a < s.len() && s[a].0 == k by {
                assert(self@.contains_key(k));
                let j = choose|j: int| 0 <= j < self.entries@.len() && self.entries@[j].key@ == k;
                assert(has_prefix(self.entries@[j].key@, prefix@));
                let a = choose|a: int| 0 <= a < r@.len() && r@[a].0@ == self.entries@[j].key@;
                assert(s[a] == (r@[a].0@, r@[a].1@));
            }
        }
        r
    }

    /// Removes every entry whose key starts with `prefix`, and no other.
    pub fn remove_by_prefix(&mut self, prefix: &[u8])
        requires
            old(self).wf(),
        ensures
            final(self).wf(),
            final(self)@ == without_prefix(old(self)@, prefix@),
    {
        let ghost m0 = self@;
        let keys = self.keys();
        let mut i: usize = 0;
        while i < keys.len()
            invariant
                self.wf(),
                0 <= i <= keys@.len(),
                forall|k: Seq<u8>| m0.contains_key(k) <==> key_views(keys@).contains(k),
                self@ == m0.restrict(m0.dom().filter(|k: Seq<u8>|
                    !(has_prefix(k, prefix@) && key_views(keys@).subrange(0, i as int).contains(k)))),
            decreases keys@.len() - i,
        {
            let ghost before = self@;
            if starts_with(keys[i].as_slice(), prefix) {
                self.remove(keys[i].as_slice());
            }
            proof {
                let ks = key_views(keys@);
                assert(ks.subrange(0, i + 1) =~= ks.subrange(0, i as int).push(ks[i as int]));
                assert(ks[i as int] == keys@[i as int]@);
                let ki = ks[i as int];
                let s1 = ks.subrange(0, i + 1);
                let s0 = ks.subrange(0, i as int);
                assert forall|k: Seq<u8>| ks.subrange(0, i + 1).contains(k)
                    <==> (ks.subrange(0, i as int).contains(k) || k == ki) by {
                    if s1.contains(k) {
                        let j = choose|j: int| 0 <= j < s1.len() && s1[j] == k;
                        if j < i {
                            assert(s0[j] == k);
                        }
                    }
                    if s0.contains(k) {
                        let j = choose|j: int| 0 <= j < s0.len() && s0[j] == k;
                        assert(s1[j] == k);
                    }
                    if k == ki {
                        assert(s1[i as int] == k);
                    }
                }
                assert(self@ =~= m0.restrict(m0.dom().filter(|k: Seq<u8>|
                    !(has_prefix(k, prefix@) && ks.subrange(0, i + 1).contains(k)))));
            }
            i += 1;
        }
        proof {
            let ks = key_views(keys@);
            assert(ks.subrange(0, keys@.len() as int) =~= ks);
            assert(self@ =~= without_prefix(m0, prefix@));
        }
    }
}

/// Removing by a prefix removes exactly the keys that start with it, and
/// leaves every other entry as it was.
pub proof fn lemma_prefix_deletion(m: Map<Seq<u8>, Seq<u8>>, p: Seq<u8>, k: Seq<u8>)
    ensures
        without_prefix(m, p).contains_key(k) <==> (m.contains_key(k) && !has_prefix(k, p)),
        without_prefix(m, p).contains_key(k) ==> without_prefix(m, p)[k] == m[k],
{
}

} // verus!