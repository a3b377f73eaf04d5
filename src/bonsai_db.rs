//! The trie database adapter: trie, flat and trie-log keys laid out over three
//! columns of a keyed store, with snapshots and optimistic transactions. The
//! adapter logs every key written to the live store; a transaction conflicts
//! where a key it wrote was written in the live store after its snapshot.

use vstd::prelude::*;
use crate::bytes::opt_bytes;
use crate::error::StorageError;
use crate::store::{apply_ops, ops_in_columns, Batch, Columns, KeyedStore};
use crate::table::{key_views, lists_exactly, lookup, pair_views, sorted_by_key, with_prefix, without_prefix};

verus! {

/// A key of the trie algorithm: a byte string in one of three namespaces.
pub enum DatabaseKey {
    Trie(Vec<u8>),
    Flat(Vec<u8>),
    TrieLog(Vec<u8>),
}

impl DatabaseKey {
    /// The key's bytes, whatever its namespace.
    pub open spec fn bytes(&self) -> Seq<u8> {
        match self {
            DatabaseKey::Trie(b) => b@,
            DatabaseKey::Flat(b) => b@,
            DatabaseKey::TrieLog(b) => b@,
        }
    }

    /// The key's bytes.
    pub fn as_slice(&self) -> (r: &[u8])
        ensures
            r@ == self.bytes(),
    {
        match self {
            DatabaseKey::Trie(b) => b.as_slice(),
            DatabaseKey::Flat(b) => b.as_slice(),
            DatabaseKey::TrieLog(b) => b.as_slice(),
        }
    }
}

/// The column of the store that holds each namespace of keys.
#[derive(Clone, Copy, Debug)]
pub struct DatabaseKeyMapping {
    pub flat: usize,
    pub trie: usize,
    pub trie_log: usize,
}

impl DatabaseKeyMapping {
    /// The column that holds `key`.
    pub open spec fn column_of(&self, key: DatabaseKey) -> usize {
        match key {
            DatabaseKey::Trie(_) => self.trie,
            DatabaseKey::Flat(_) => self.flat,
            DatabaseKey::TrieLog(_) => self.trie_log,
        }
    }

    /// Whether the three columns are distinct and among the first `n`.
    pub open spec fn valid_for(&self, n: nat) -> bool {
        &&& self.flat < n
        &&& self.trie < n
        &&& self.trie_log < n
        &&& self.flat != self.trie
        &&& self.flat != self.trie_log
        &&& self.trie != self.trie_log
    }

    /// The column that holds `key`.
    pub fn map(&self, key: &DatabaseKey) -> (r: usize)
        ensures
            r == self.column_of(*key),
    {
        match key {
            DatabaseKey::Trie(_) => self.trie,
            DatabaseKey::Flat(_) => self.flat,
            DatabaseKey::TrieLog(_) => self.trie_log,
        }
    }
}

/// The live columns after a transaction's writes are merged: each key that
/// the transaction wrote takes the transaction's value, or is gone where the
/// transaction removed it; every other key keeps its live value.
pub open spec fn merged(live: Columns, txn: Columns, written: Set<(int, Seq<u8>)>) -> Columns {
    Seq::new(live.len(), |c: int| Map::new(
        |k: Seq<u8>| if written.contains((c, k)) { txn[c].contains_key(k) } else { live[c].contains_key(k) },
        |k: Seq<u8>| if written.contains((c, k)) { txn[c][k] } else { live[c][k] },
    ))
}

/// Whether the live store has written, at or after position `mark` of its
/// write log, a key that the transaction wrote.
pub open spec fn conflicts(log: Seq<(int, Seq<u8>)>, mark: int, written: Set<(int, Seq<u8>)>) -> bool {
    exists|i: int| 0 <= mark <= i < log.len() && written.contains(#[trigger] log[i])
}

/// Whether `after` is `before` followed by one entry for each key of `keys`
/// (and no other).
pub open spec fn appended(before: Seq<(int, Seq<u8>)>, after: Seq<(int, Seq<u8>)>, keys: Set<(int, Seq<u8>)>) -> bool {
    &&& before.len() <= after.len()
    &&& after.subrange(0, before.len() as int) == before
    &&& forall|x: (int, Seq<u8>)| after.subrange(before.len() as int, after.len() as int).contains(x) <==> keys.contains(x)
}

/// The written keys of a write list as plain values.
pub open spec fn written_views(ws: Seq<(usize, Vec<u8>)>) -> Seq<(int, Seq<u8>)> {
    ws.map_values(|w: (usize, Vec<u8>)| written_view(w))
}

/// A written key as plain values.
pub open spec fn written_view(w: (usize, Vec<u8>)) -> (int, Seq<u8>) {
    (w.0 as int, w.1@)
}

/// The keys written by the first `n` entries of a write list.
pub open spec fn written_upto(ws: Seq<(usize, Vec<u8>)>, n: int) -> Set<(int, Seq<u8>)> {
    Set::new(|x: (int, Seq<u8>)| exists|j: int| 0 <= j < n && #[trigger] written_view(ws[j]) == x)
}

/// The keys, by column, that the first `n` writes of a batch write.
pub open spec fn batch_keys(ops: Seq<(int, Seq<u8>, Option<Seq<u8>>)>, n: int) -> Set<(int, Seq<u8>)> {
    Set::new(|x: (int, Seq<u8>)| exists|j: int| 0 <= j < n && #[trigger] batch_key(ops[j]) == x)
}

/// The column and key of a write.
pub open spec fn batch_key(op: (int, Seq<u8>, Option<Seq<u8>>)) -> (int, Seq<u8>) {
    (op.0, op.1)
}

/// A snapshot of the store under its id.
struct Snapshot {
    id: u64,
    store: KeyedStore,
    mark: usize,
}

/// The adapter over the live store.
pub struct BonsaiDb {
    store: KeyedStore,
    column_mapping: DatabaseKeyMapping,
    snapshots: Vec<Snapshot>,
    snapshot_model: Ghost<Map<u64, Columns>>,
    mark_model: Ghost<Map<u64, int>>,
    log: Vec<(usize, Vec<u8>)>,
}

impl BonsaiDb {
    /// The live store's columns.
    pub closed spec fn live(&self) -> Columns {
        self.store@
    }

    /// The snapshots kept, by id.
    pub closed spec fn snapshots(&self) -> Map<u64, Columns> {
        self.snapshot_model@
    }

    /// For each snapshot kept, the length of the write log when it was taken.
    pub closed spec fn snapshot_marks(&self) -> Map<u64, int> {
        self.mark_model@
    }

    /// Every key written to the live store, by column, in order of writing.
    pub closed spec fn log(&self) -> Seq<(int, Seq<u8>)> {
        written_views(self.log@)
    }

    /// The columns that hold each namespace.
    pub closed spec fn mapping(&self) -> DatabaseKeyMapping {
        self.column_mapping
    }

    /// The store, the mapping and the snapshot table agree.
    pub closed spec fn wf(&self) -> bool {
        &&& self.store.wf()
        &&& self.column_mapping.valid_for(self.store@.len())
        &&& forall|i: int, j: int|
            0 <= i < self.snapshots@.len() && 0 <= j < self.snapshots@.len() && i != j
                ==> self.snapshots@[i].id != self.snapshots@[j].id
        &&& forall|i: int|
            0 <= i < self.snapshots@.len() ==> {
                &&& (#[trigger] self.snapshots@[i]).store.wf()
                &&& self.snapshot_model@.contains_key(self.snapshots@[i].id)
                &&& self.snapshot_model@[self.snapshots@[i].id] == self.snapshots@[i].store@
            }
        &&& forall|id: u64|
            #[trigger] self.snapshot_model@.contains_key(id) ==> exists|i: int|
                0 <= i < self.snapshots@.len() && self.snapshots@[i].id == id
        &&& forall|id: u64|
            #[trigger] self.snapshot_model@.contains_key(id) ==> self.snapshot_model@[id].len() == self.store@.len()
        &&& forall|i: int|
            0 <= i < self.snapshots@.len() ==> self.mark_model@.contains_key((#[trigger] self.snapshots@[i]).id)
                && self.mark_model@[self.snapshots@[i].id] == self.snapshots@[i].mark as int
        &&& forall|id: u64| #[trigger] self.mark_model@.contains_key(id) <==> self.snapshot_model@.contains_key(id)
        &&& forall|id: u64| #[trigger] self.mark_model@.contains_key(id) ==> self.mark_model@[id] <= self.log@.len()
    }

    /// Snapshots have as many columns as the live store, and were taken at
    /// most as late as now.
    pub proof fn lemma_snapshot_shape(&self, id: u64)
        requires
            self.wf(),
            self.snapshots().contains_key(id),
        ensures
            self.snapshots()[id].len() == self.live().len(),
            self.snapshot_marks().contains_key(id),
            0 <= self.snapshot_marks()[id] <= self.log().len(),
    {
        let i = choose|i: int| 0 <= i < self.snapshots@.len() && self.snapshots@[i].id == id;
        assert(self.mark_model@.contains_key(self.snapshots@[i].id));
    }

    /// The adapter over `store`, with namespaces laid out by `column_mapping`;
    /// fails where a column is missing from the store or two namespaces share
    /// one.
    pub fn new(store: KeyedStore, column_mapping: DatabaseKeyMapping) -> (r: Result<BonsaiDb, StorageError>)
        requires
            store.wf(),
        ensures
            column_mapping.valid_for(store@.len()) ==> (r matches Ok(db) && {
                &&& db.wf()
                &&& db.live() == store@
                &&& db.mapping() == column_mapping
                &&& db.snapshots() == Map::<u64, Columns>::empty()
                &&& db.snapshot_marks() == Map::<u64, int>::empty()
                &&& db.log() == Seq::<(int, Seq<u8>)>::empty()
            }),
            (column_mapping.flat >= store@.len() || column_mapping.trie >= store@.len()
                || column_mapping.trie_log >= store@.len()) ==> r is Err && r->Err_0 == StorageError::MissingColumn,
            (column_mapping.flat < store@.len() && column_mapping.trie < store@.len()
                && column_mapping.trie_log < store@.len() && !column_mapping.valid_for(store@.len())) ==> r is Err
                && r->Err_0 == StorageError::SharedColumn,
    {
        let n = store.n_columns();
        if column_mapping.flat >= n || column_mapping.trie >= n || column_mapping.trie_log >= n {
            return Err(StorageError::MissingColumn);
        }
        if column_mapping.flat == column_mapping.trie || column_mapping.flat == column_mapping.trie_log
            || column_mapping.trie == column_mapping.trie_log {
            return Err(StorageError::SharedColumn);
        }
        let db = BonsaiDb {
            store,
            column_mapping,
            snapshots: Vec::new(),
            snapshot_model: Ghost(Map::empty()),
            mark_model: Ghost(Map::empty()),
            log: Vec::new(),
        };
        assert(db.log() =~= Seq::<(int, Seq<u8>)>::empty());
        Ok(db)
    }

    /// A change to the live store alone keeps the adapter well formed.
    proof fn lemma_frame(a: BonsaiDb, b: BonsaiDb)
        requires
            a.wf(),
            b.store.wf(),
            b.store@.len() == a.store@.len(),
            b.column_mapping == a.column_mapping,
            b.snapshots@ == a.snapshots@,
            b.snapshot_model@ == a.snapshot_model@,
            b.mark_model@ == a.mark_model@,
            b.log@.len() >= a.log@.len(),
        ensures
            b.wf(),
    {
        assert forall|id: u64| #[trigger] b.snapshot_model@.contains_key(id) implies exists|i: int|
            0 <= i < b.snapshots@.len() && b.snapshots@[i].id == id by {
            let i = choose|i: int| 0 <= i < a.snapshots@.len() && a.snapshots@[i].id == id;
            assert(b.snapshots@[i].id == id);
        }
    }

    /// Appends the key `key` of `column` to the write log.
    fn log_one(&mut self, column: usize, key: &[u8])
        requires
            old(self).wf(),
        ensures
            final(self).wf(),
            final(self).store == old(self).store,
            final(self).column_mapping == old(self).column_mapping,
            final(self).snapshots == old(self).snapshots,
            final(self).snapshot_model == old(self).snapshot_model,
            final(self).mark_model == old(self).mark_model,
            final(self).log() == old(self).log().push((column as int, key@)),
    {
        self.log.push((column, crate::bytes::copy_bytes(key)));
        proof {
            BonsaiDb::lemma_frame(*old(self), *self);
            assert(self.log() =~= old(self).log().push((column as int, key@)));
        }
    }

    /// Appends the keys `ws` to the write log.
    fn append_log(&mut self, ws: &Vec<(usize, Vec<u8>)>)
        requires
            old(self).wf(),
        ensures
            final(self).wf(),
            final(self).store == old(self).store,
            final(self).column_mapping == old(self).column_mapping,
            final(self).snapshots == old(self).snapshots,
            final(self).snapshot_model == old(self).snapshot_model,
            final(self).mark_model == old(self).mark_model,
            final(self).log() == old(self).log() + written_views(ws@),
    {
        let mut i: usize = 0;
        while i < ws.len()
            invariant
                self.wf(),
                self.store == old(self).store,
                self.column_mapping == old(self).column_mapping,
                self.snapshots == old(self).snapshots,
                self.snapshot_model == old(self).snapshot_model,
                self.mark_model == old(self).mark_model,
                0 <= i <= ws@.len(),
                self.log() == old(self).log() + written_views(ws@.subrange(0, i as int)),
            decreases ws@.len() - i,
        {
            let ghost before = *self;
            let ghost l0 = self.log@;
            self.log.push((ws[i].0, crate::bytes::copy_bytes(ws[i].1.as_slice())));
            proof {
                BonsaiDb::lemma_frame(before, *self);
                assert(self.log@ == l0.push(self.log@[l0.len() as int]));
                assert(written_view(self.log@[l0.len() as int]) == written_view(ws@[i as int]));
                assert(written_views(self.log@) =~= written_views(l0).push(written_view(ws@[i as int])));
                assert(written_views(ws@.subrange(0, i + 1)) =~= written_views(ws@.subrange(0, i as int)).push(
                    written_view(ws@[i as int]),
                ));
                assert(self.log() =~= old(self).log() + written_views(ws@.subrange(0, i + 1)));
            }
            i += 1;
        }
        assert(ws@.subrange(0, ws@.len() as int) =~= ws@);
    }

    /// A well-formed adapter's mapping fits its store.
    pub proof fn lemma_wf_mapping(&self)
        requires
            self.wf(),
        ensures
            self.mapping().valid_for(self.live().len()),
    {
    }

    /// An empty batch.
    pub fn create_batch(&self) -> (r: Batch)
        ensures
            r@ == Seq::<(int, Seq<u8>, Option<Seq<u8>>)>::empty(),
    {
        Batch::new()
    }

    /// The value held at `key`.
    pub fn get(&self, key: &DatabaseKey) -> (r: Result<Option<Vec<u8>>, StorageError>)
        requires
            self.wf(),
        ensures
            r matches Ok(v) && opt_bytes(v) == lookup(self.live()[self.mapping().column_of(*key) as int], key.bytes()),
    {
        let c = self.column_mapping.map(key);
        self.store.get(c, key.as_slice())
    }

    /// The keys and values in `prefix`'s namespace whose keys start with its
    /// bytes, in increasing lexicographic order of key.
    pub fn get_by_prefix(&self, prefix: &DatabaseKey) -> (r: Result<Vec<(Vec<u8>, Vec<u8>)>, StorageError>)
        requires
            self.wf(),
        ensures
            r matches Ok(v) && lists_exactly(
                pair_views(v@),
                with_prefix(self.live()[self.mapping().column_of(*prefix) as int], prefix.bytes()),
            ) && sorted_by_key(pair_views(v@)),
    {
        let c = self.column_mapping.map(prefix);
        self.store.get_by_prefix(c, prefix.as_slice())
    }

    /// Whether a value is held at `key`.
    pub fn contains(&self, key: &DatabaseKey) -> (r: Result<bool, StorageError>)
        requires
            self.wf(),
        ensures
            r == Ok::<bool, StorageError>(
                self.live()[self.mapping().column_of(*key) as int].contains_key(key.bytes()),
            ),
    {
        let c = self.column_mapping.map(key);
        self.store.contains(c, key.as_slice())
    }

    /// Sets `key` to `value` in the live store; returns the value held there
    /// before.
    pub fn insert(&mut self, key: &DatabaseKey, value: &[u8]) -> (r: Result<Option<Vec<u8>>, StorageError>)
        requires
            old(self).wf(),
        ensures
            final(self).wf(),
            final(self).mapping() == old(self).mapping(),
            final(self).snapshots() == old(self).snapshots(),
            r matches Ok(v) && opt_bytes(v) == lookup(
                old(self).live()[old(self).mapping().column_of(*key) as int],
                key.bytes(),
            ),
            final(self).live() == old(self).live().update(
                old(self).mapping().column_of(*key) as int,
                old(self).live()[old(self).mapping().column_of(*key) as int].insert(key.bytes(), value@),
            ),
            final(self).snapshot_marks() == old(self).snapshot_marks(),
            final(self).log() == old(self).log().push((old(self).mapping().column_of(*key) as int, key.bytes())),
    {
        let c = self.column_mapping.map(key);
        let r = self.store.insert(c, key.as_slice(), value);
        proof {
            BonsaiDb::lemma_frame(*old(self), *self);
        }
        self.log_one(c, key.as_slice());
        r
    }

    /// Leaves the live store as it is and appends the write of `value` at
    /// `key` to `batch`; returns the value held at `key` now.
    pub fn insert_into_batch(&self, key: &DatabaseKey, value: &[u8], batch: &mut Batch) -> (r: Result<
        Option<Vec<u8>>,
        StorageError,
    >)
        requires
            self.wf(),
        ensures
            r matches Ok(v) && opt_bytes(v) == lookup(self.live()[self.mapping().column_of(*key) as int], key.bytes()),
            final(batch)@ == old(batch)@.push(
                (self.mapping().column_of(*key) as int, key.bytes(), Some(value@)),
            ),
    {
        let c = self.column_mapping.map(key);
        let prev = self.store.get(c, key.as_slice());
        batch.put(c, key.as_slice(), value);
        prev
    }

    /// Removes `key` from the live store; returns the value held there before.
    pub fn remove(&mut self, key: &DatabaseKey) -> (r: Result<Option<Vec<u8>>, StorageError>)
        requires
            old(self).wf(),
        ensures
            final(self).wf(),
            final(self).mapping() == old(self).mapping(),
            final(self).snapshots() == old(self).snapshots(),
            r matches Ok(v) && opt_bytes(v) == lookup(
                old(self).live()[old(self).mapping().column_of(*key) as int],
                key.bytes(),
            ),
            final(self).live() == old(self).live().update(
                old(self).mapping().column_of(*key) as int,
                old(self).live()[old(self).mapping().column_of(*key) as int].remove(key.bytes()),
            ),
            final(self).snapshot_marks() == old(self).snapshot_marks(),
            final(self).log() == old(self).log().push((old(self).mapping().column_of(*key) as int, key.bytes())),
    {
        let c = self.column_mapping.map(key);
        let r = self.store.remove(c, key.as_slice());
        proof {
            BonsaiDb::lemma_frame(*old(self), *self);
        }
        self.log_one(c, key.as_slice());
        r
    }

    /// Leaves the live store as it is and appends the deletion of `key` to
    /// `batch`; returns the value held at `key` now.
    pub fn remove_into_batch(&self, key: &DatabaseKey, batch: &mut Batch) -> (r: Result<
        Option<Vec<u8>>,
        StorageError,
    >)
        requires
            self.wf(),
        ensures
            r matches Ok(v) && opt_bytes(v) == lookup(self.live()[self.mapping().column_of(*key) as int], key.bytes()),
            final(batch)@ == old(batch)@.push(
                (self.mapping().column_of(*key) as int, key.bytes(), None::<Seq<u8>>),
            ),
    {
        let c = self.column_mapping.map(key);
        let prev = self.store.get(c, key.as_slice());
        batch.delete(c, key.as_slice());
        prev
    }

    /// Removes every key in `prefix`'s namespace that starts with its bytes,
    /// and no other.
    pub fn remove_by_prefix(&mut self, prefix: &DatabaseKey) -> (r: Result<(), StorageError>)
        requires
            old(self).wf(),
        ensures
            final(self).wf(),
            final(self).mapping() == old(self).mapping(),
            final(self).snapshots() == old(self).snapshots(),
            r is Ok,
            final(self).live() == old(self).live().update(
                old(self).mapping().column_of(*prefix) as int,
                without_prefix(old(self).live()[old(self).mapping().column_of(*prefix) as int], prefix.bytes()),
            ),
            final(self).snapshot_marks() == old(self).snapshot_marks(),
            appended(old(self).log(), final(self).log(), Set::new(|x: (int, Seq<u8>)|
                x.0 == old(self).mapping().column_of(*prefix) as int && with_prefix(
                    old(self).live()[old(self).mapping().column_of(*prefix) as int],
                    prefix.bytes(),
                ).contains_key(x.1))),
    {
        let c = self.column_mapping.map(prefix);
        let keys = self.store.keys_with_prefix(c, prefix.as_slice());
        let ghost m = with_prefix(self.store@[c as int], prefix.bytes());
        let ws = column_keys(c, &keys);
        let r = self.store.remove_by_prefix(c, prefix.as_slice());
        proof {
            BonsaiDb::lemma_frame(*old(self), *self);
        }
        self.append_log(&ws);
        proof {
            lemma_appended(old(self).log(), written_views(ws@), Set::new(|x: (int, Seq<u8>)|
                x.0 == c as int && m.contains_key(x.1)));
        }
        r
    }

    /// Applies the writes of `batch` to the live store, all of them or, where
    /// one names a missing column, none.
    pub fn write_batch(&mut self, batch: Batch) -> (r: Result<(), StorageError>)
        requires
            old(self).wf(),
        ensures
            final(self).wf(),
            final(self).mapping() == old(self).mapping(),
            final(self).snapshots() == old(self).snapshots(),
            ops_in_columns(batch@, old(self).live().len() as int) ==> r is Ok
                && final(self).live() == apply_ops(old(self).live(), batch@),
            !ops_in_columns(batch@, old(self).live().len() as int) ==> r is Err
                && r->Err_0 == StorageError::MissingColumn && final(self).live() == old(self).live()
                && final(self).log() == old(self).log(),
            final(self).snapshot_marks() == old(self).snapshot_marks(),
            ops_in_columns(batch@, old(self).live().len() as int) ==> appended(
                old(self).log(),
                final(self).log(),
                batch_keys(batch@, batch@.len() as int),
            ),
    {
        proof {
            lemma_apply_ops_len(old(self).live(), batch@);
        }
        let ws = batch_written(&batch);
        let ghost bv = batch@;
        let r = self.store.write_batch(batch);
        proof {
            BonsaiDb::lemma_frame(*old(self), *self);
        }
        if r.is_ok() {
            self.append_log(&ws);
            proof {
                lemma_appended(old(self).log(), written_views(ws@), batch_keys(bv, bv.len() as int));
            }
        }
        r
    }
}

/// The keys `keys` of column `column`, as a write list.
fn column_keys(column: usize, keys: &Vec<Vec<u8>>) -> (r: Vec<(usize, Vec<u8>)>)
    ensures
        forall|x: (int, Seq<u8>)| written_views(r@).contains(x) <==> (x.0 == column as int && key_views(keys@).contains(x.1)),
{
    let mut r: Vec<(usize, Vec<u8>)> = Vec::new();
    let mut i: usize = 0;
    while i < keys.len()
        invariant
            0 <= i <= keys@.len(),
            r@.len() == i,
            written_views(r@) == key_views(keys@).subrange(0, i as int).map_values(|k: Seq<u8>| (column as int, k)),
        decreases keys@.len() - i,
    {
        let ghost r0 = r@;
        r.push((column, crate::bytes::copy_bytes(keys[i].as_slice())));
        proof {
            assert(written_view(r@[i as int]) == (column as int, keys@[i as int]@));
            assert(written_views(r@) =~= written_views(r0).push((column as int, keys@[i as int]@)));
            assert(key_views(keys@)[i as int] == keys@[i as int]@);
            assert(written_views(r@) =~= key_views(keys@).subrange(0, i + 1).map_values(|k: Seq<u8>| (column as int, k)));
        }
        i += 1;
    }
    proof {
        let ks = key_views(keys@);
        assert(ks.subrange(0, keys@.len() as int) =~= ks);
        let wv = written_views(r@);
        assert forall|x: (int, Seq<u8>)| wv.contains(x) <==> (x.0 == column as int && ks.contains(x.1)) by {
            if wv.contains(x) {
                let j = choose|j: int| 0 <= j < wv.len() && wv[j] == x;
                assert(ks[j] == x.1);
            }
            if x.0 == column as int && ks.contains(x.1) {
                let j = choose|j: int| 0 <= j < ks.len() && ks[j] == x.1;
                assert(wv[j] == x);
            }
        }
    }
    r
}

/// The keys that the writes of `batch` write, as a write list.
fn batch_written(batch: &Batch) -> (r: Vec<(usize, Vec<u8>)>)
    ensures
        forall|x: (int, Seq<u8>)| written_views(r@).contains(x) <==> batch_keys(batch@, batch@.len() as int).contains(x),
{
    let mut r: Vec<(usize, Vec<u8>)> = Vec::new();
    let mut i: usize = 0;
    while i < batch.ops.len()
        invariant
            0 <= i <= batch.ops@.len(),
            r@.len() == i,
            forall|j: int| 0 <= j < i ==> #[trigger] written_view(r@[j]) == batch_key(batch@[j]),
        decreases batch.ops@.len() - i,
    {
        r.push((batch.ops[i].column, crate::bytes::copy_bytes(batch.ops[i].key.as_slice())));
        proof {
            assert(batch@[i as int] == crate::store::op_view(batch.ops@[i as int]));
            assert forall|j: int| 0 <= j < i + 1 implies #[trigger] written_view(r@[j]) == batch_key(batch@[j]) by {
                if j == i {
                    assert(batch@[j] == crate::store::op_view(batch.ops@[j]));
                }
            }
        }
        i += 1;
    }
    proof {
        let wv = written_views(r@);
        let n = batch@.len() as int;
        assert forall|x: (int, Seq<u8>)| wv.contains(x) <==> batch_keys(batch@, n).contains(x) by {
            if wv.contains(x) {
                let j = choose|j: int| 0 <= j < wv.len() && wv[j] == x;
                assert(written_view(r@[j]) == batch_key(batch@[j]));
            }
            if batch_keys(batch@, n).contains(x) {
                let j = choose|j: int| 0 <= j < n && #[trigger] batch_key(batch@[j]) == x;
                assert(written_view(r@[j]) == batch_key(batch@[j]));
                assert(wv[j] == x);
            }
        }
    }
    r
}

/// A log followed by a list whose entries are exactly the keys of `keys` is
/// `appended` with them.
pub proof fn lemma_appended(before: Seq<(int, Seq<u8>)>, s: Seq<(int, Seq<u8>)>, keys: Set<(int, Seq<u8>)>)
    requires
        forall|x: (int, Seq<u8>)| s.contains(x) <==> keys.contains(x),
    ensures
        appended(before, before + s, keys),
{
    let after = before + s;
    assert(after.subrange(0, before.len() as int) =~= before);
    assert(after.subrange(before.len() as int, after.len() as int) =~= s);
}

/// Writes keep the number of columns.
pub proof fn lemma_apply_ops_len(cols: Columns, ops: Seq<(int, Seq<u8>, Option<Seq<u8>>)>)
    ensures
        apply_ops(cols, ops).len() == cols.len(),
    decreases ops.len(),
{
    if ops.len() > 0 {
        lemma_apply_ops_len(cols, ops.drop_last());
    }
}

impl BonsaiDb {
    /// The index of the snapshot with id `id`, if there is one.
    fn find_snapshot(&self, id: u64) -> (r: Option<usize>)
        requires
            self.wf(),
        ensures
            match r {
                Some(i) => i < self.snapshots@.len() && self.snapshots@[i as int].id == id,
                None => !self.snapshots().contains_key(id),
            },
    {
        let mut i: usize = 0;
        while i < self.snapshots.len()
            invariant
                self.wf(),
                0 <= i <= self.snapshots@.len(),
                forall|j: int| 0 <= j < i ==> self.snapshots@[j].id != id,
            decreases self.snapshots@.len() - i,
        {
            if self.snapshots[i].id == id {
                return Some(i);
            }
            i += 1;
        }
        None
    }

    /// Keeps the live store as it is now under `id`, in place of any snapshot
    /// held there before.
    pub fn snapshot(&mut self, id: u64)
        requires
            old(self).wf(),
        ensures
            final(self).wf(),
            final(self).live() == old(self).live(),
            final(self).mapping() == old(self).mapping(),
            final(self).snapshots() == old(self).snapshots().insert(id, old(self).live()),
            final(self).snapshot_marks() == old(self).snapshot_marks().insert(id, old(self).log().len() as int),
            final(self).log() == old(self).log(),
    {
        let copy = self.store.duplicate();
        let mark = self.log.len();
        let ghost m0 = self.snapshot_model@;
        let ghost k0 = self.mark_model@;
        let ghost live = self.store@;
        match self.find_snapshot(id) {
            Some(i) => {
                self.snapshots.set(i, Snapshot { id, store: copy, mark });
                self.snapshot_model = Ghost(m0.insert(id, live));
                self.mark_model = Ghost(k0.insert(id, mark as int));
                proof {
                    assert forall|x: u64| #[trigger] self.snapshot_model@.contains_key(x) implies exists|j: int|
                        0 <= j < self.snapshots@.len() && self.snapshots@[j].id == x by {
                        if x != id {
                            let j = choose|j: int| 0 <= j < old(self).snapshots@.len() && old(self).snapshots@[j].id == x;
                            assert(self.snapshots@[j].id == x);
                        } else {
                            assert(self.snapshots@[i as int].id == x);
                        }
                    }
                }
            },
            None => {
                self.snapshots.push(Snapshot { id, store: copy, mark });
                self.snapshot_model = Ghost(m0.insert(id, live));
                self.mark_model = Ghost(k0.insert(id, mark as int));
                proof {
                    let n = self.snapshots@.len() - 1;
                    assert forall|x: u64| #[trigger] self.snapshot_model@.contains_key(x) implies exists|j: int|
                        0 <= j < self.snapshots@.len() && self.snapshots@[j].id == x by {
                        if x != id {
                            let j = choose|j: int| 0 <= j < old(self).snapshots@.len() && old(self).snapshots@[j].id == x;
                            assert(self.snapshots@[j].id == x);
                        } else {
                            assert(self.snapshots@[n].id == x);
                        }
                    }
                }
            },
        }
    }

    /// Drops the snapshot kept under `id`, if any; returns whether there was
    /// one. Snapshots are kept until released.
    pub fn release_snapshot(&mut self, id: u64) -> (r: bool)
        requires
            old(self).wf(),
        ensures
            final(self).wf(),
            final(self).live() == old(self).live(),
            final(self).mapping() == old(self).mapping(),
            final(self).snapshots() == old(self).snapshots().remove(id),
            final(self).snapshot_marks() == old(self).snapshot_marks().remove(id),
            final(self).log() == old(self).log(),
            r == old(self).snapshots().contains_key(id),
    {
        let ghost m0 = self.snapshot_model@;
        let ghost k0 = self.mark_model@;
        match self.find_snapshot(id) {
            Some(i) => {
                let _ = self.snapshots.remove(i);
                self.snapshot_model = Ghost(m0.remove(id));
                self.mark_model = Ghost(k0.remove(id));
                proof {
                    let old_s = old(self).snapshots@;
                    assert forall|j: int| 0 <= j < self.snapshots@.len() implies {
                        &&& (#[trigger] self.snapshots@[j]).store.wf()
                        &&& self.snapshot_model@.contains_key(self.snapshots@[j].id)
                        &&& self.snapshot_model@[self.snapshots@[j].id] == self.snapshots@[j].store@
                        &&& self.mark_model@.contains_key(self.snapshots@[j].id)
                        &&& self.mark_model@[self.snapshots@[j].id] == self.snapshots@[j].mark as int
                    } by {
                        if j < i {
                            assert(self.snapshots@[j] == old_s[j]);
                        } else {
                            assert(self.snapshots@[j] == old_s[j + 1]);
                        }
                    }
                    assert forall|x: u64| #[trigger] self.snapshot_model@.contains_key(x) implies exists|j: int|
                        0 <= j < self.snapshots@.len() && self.snapshots@[j].id == x by {
                        let j = choose|j: int| 0 <= j < old_s.len() && old_s[j].id == x;
                        assert(j != i);
                        if j < i {
                            assert(self.snapshots@[j] == old_s[j]);
                        } else {
                            assert(self.snapshots@[j - 1] == old_s[j]);
                        }
                    }
                    assert forall|a: int, b: int|
                        0 <= a < self.snapshots@.len() && 0 <= b < self.snapshots@.len() && a != b
                        implies self.snapshots@[a].id != self.snapshots@[b].id by {
                        let oa = if a < i { a } else { a + 1 };
                        let ob = if b < i { b } else { b + 1 };
                        assert(self.snapshots@[a] == old_s[oa]);
                        assert(self.snapshots@[b] == old_s[ob]);
                    }
                }
                true
            },
            None => {
                assert(m0.remove(id) =~= m0);
                assert(k0.remove(id) =~= k0);
                false
            },
        }
    }

    /// A transaction over the snapshot kept under `id`, or `None` where no
    /// snapshot is kept under it. It reads the snapshot, writes nothing yet,
    /// and remembers how long the write log was when the snapshot was taken.
    pub fn transaction(&self, id: u64) -> (r: Option<BonsaiTransaction>)
        requires
            self.wf(),
        ensures
            r.is_some() == self.snapshots().contains_key(id),
            r matches Some(t) ==> {
                &&& t.wf()
                &&& t.current() == self.snapshots()[id]
                &&& t.current().len() == self.live().len()
                &&& t.mark() == self.snapshot_marks()[id]
                &&& t.written() == Set::<(int, Seq<u8>)>::empty()
                &&& t.mapping() == self.mapping()
            },
    {
        match self.find_snapshot(id) {
            Some(i) => {
                let store = self.snapshots[i].store.duplicate();
                let t = BonsaiTransaction {
                    store,
                    mark: self.snapshots[i].mark,
                    written: Vec::new(),
                    written_set: Ghost(Set::empty()),
                    column_mapping: self.column_mapping,
                };
                Some(t)
            },
            None => None,
        }
    }

    /// Merges the writes of `transaction` into the live store, or fails with
    /// a conflict, changing nothing, where the live store has written a key
    /// that the transaction wrote since the transaction's snapshot, whatever
    /// the value. Each key merged is added to the write log.
    pub fn merge(&mut self, transaction: BonsaiTransaction) -> (r: Result<(), StorageError>)
        requires
            old(self).wf(),
            transaction.wf(),
        ensures
            final(self).wf(),
            final(self).mapping() == old(self).mapping(),
            final(self).snapshots() == old(self).snapshots(),
            final(self).snapshot_marks() == old(self).snapshot_marks(),
            transaction.current().len() != old(self).live().len() ==> r is Err
                && r->Err_0 == StorageError::MissingColumn && final(self).live() == old(self).live()
                && final(self).log() == old(self).log(),
            transaction.current().len() == old(self).live().len() ==> {
                &&& conflicts(old(self).log(), transaction.mark(), transaction.written()) ==> r is Err
                    && r->Err_0 == StorageError::TransactionConflict && final(self).live() == old(self).live()
                    && final(self).log() == old(self).log()
                &&& !conflicts(old(self).log(), transaction.mark(), transaction.written()) ==> r is Ok
                    && final(self).live() == merged(old(self).live(), transaction.current(), transaction.written())
                    && appended(old(self).log(), final(self).log(), transaction.written())
            },
    {
        if transaction.store.n_columns() != self.store.n_columns() {
            return Err(StorageError::MissingColumn);
        }
        let ghost live0 = self.store@;
        let ghost log0 = self.log();
        let ghost cur = transaction.store@;
        let ghost ws = transaction.written@;
        let mut i: usize = transaction.mark;
        if i < self.log.len() {
            while i < self.log.len()
                invariant
                    self.wf(),
                    transaction.wf(),
                    self.log() == log0,
                    self.store@ == live0,
                    transaction.store@.len() == live0.len(),
                    transaction.mark <= i <= self.log@.len(),
                    forall|j: int| transaction.mark <= j < i ==> !transaction.written().contains(#[trigger] log0[j]),
                decreases self.log@.len() - i,
            {
                if transaction.has_written(self.log[i].0, self.log[i].1.as_slice()) {
                    proof {
                        assert(log0[i as int] == written_view(self.log@[i as int]));
                        assert(transaction.written().contains(log0[i as int]));
                    }
                    return Err(StorageError::TransactionConflict);
                }
                proof {
                    assert(log0[i as int] == written_view(self.log@[i as int]));
                }
                i += 1;
            }
        }
        assert(!conflicts(log0, transaction.mark(), transaction.written()));
        let mut i: usize = 0;
        while i < transaction.written.len()
            invariant
                self.wf(),
                transaction.wf(),
                self.store@.len() == live0.len(),
                cur.len() == live0.len(),
                ws == transaction.written@,
                cur == transaction.store@,
                self.snapshots() == old(self).snapshots(),
                self.snapshot_marks() == old(self).snapshot_marks(),
                self.mapping() == old(self).mapping(),
                self.log() == log0,
                0 <= i <= ws.len(),
                self.store@ =~~= merged(live0, cur, written_upto(ws, i as int)),
            decreases ws.len() - i,
        {
            let c = transaction.written[i].0;
            let k = transaction.written[i].1.as_slice();
            let v = transaction.store.get(c, k);
            let ghost before = *self;
            match v {
                Ok(Some(v)) => {
                    let _ = self.store.insert(c, k, v.as_slice());
                },
                _ => {
                    let _ = self.store.remove(c, k);
                },
            }
            proof {
                BonsaiDb::lemma_frame(before, *self);
                let s0 = written_upto(ws, i as int);
                let s1 = written_upto(ws, i + 1);
                assert forall|x: (int, Seq<u8>)| s1.contains(x) <==> (s0.contains(x) || x == written_view(ws[i as int])) by {
                    if s1.contains(x) {
                        let j = choose|j: int| 0 <= j < i + 1 && #[trigger] written_view(ws[j]) == x;
                        if j < i {
                            assert(s0.contains(x));
                        }
                    }
                    if s0.contains(x) {
                        let j = choose|j: int| 0 <= j < i && #[trigger] written_view(ws[j]) == x;
                        assert(s1.contains(x));
                    }
                    if x == written_view(ws[i as int]) {
                        assert(written_view(ws[i as int]) == x);
                        assert(s1.contains(x));
                    }
                }
                assert(self.store@ =~~= merged(live0, cur, s1));
            }
            i += 1;
        }
        proof {
            let s = written_upto(ws, ws.len() as int);
            assert forall|x: (int, Seq<u8>)| s.contains(x) <==> transaction.written_set@.contains(x) by {
                if s.contains(x) {
                    let j = choose|j: int| 0 <= j < ws.len() && #[trigger] written_view(ws[j]) == x;
                }
            }
            assert(s =~= transaction.written_set@);
            assert(self.store@ =~~= merged(live0, cur, transaction.written()));
        }
        self.append_log(&transaction.written);
        proof {
            let wv = written_views(ws);
            assert forall|x: (int, Seq<u8>)| wv.contains(x) <==> transaction.written().contains(x) by {
                if wv.contains(x) {
                    let j = choose|j: int| 0 <= j < wv.len() && wv[j] == x;
                    assert(transaction.written_set@.contains(written_view(ws[j])));
                }
                if transaction.written().contains(x) {
                    let j = choose|j: int| 0 <= j < ws.len() && written_view(ws[j]) == x;
                    assert(wv[j] == x);
                }
            }
            lemma_appended(log0, wv, transaction.written());
        }
        Ok(())
    }
}

/// A transaction over a snapshot: it reads the snapshot with its own writes
/// laid over it, and remembers the keys that it wrote and the position of the
/// live write log at its snapshot.
pub struct BonsaiTransaction {
    store: KeyedStore,
    mark: usize,
    written: Vec<(usize, Vec<u8>)>,
    written_set: Ghost<Set<(int, Seq<u8>)>>,
    column_mapping: DatabaseKeyMapping,
}

impl BonsaiTransaction {
    /// The length of the live store's write log when the transaction's
    /// snapshot was taken.
    pub closed spec fn mark(&self) -> int {
        self.mark as int
    }

    /// What the transaction reads: its snapshot with its writes.
    pub closed spec fn current(&self) -> Columns {
        self.store@
    }

    /// The keys, by column, that the transaction has written.
    pub closed spec fn written(&self) -> Set<(int, Seq<u8>)> {
        self.written_set@
    }

    /// The columns that hold each namespace.
    pub closed spec fn mapping(&self) -> DatabaseKeyMapping {
        self.column_mapping
    }

    /// The parts of the transaction agree.
    pub closed spec fn wf(&self) -> bool {
        &&& self.store.wf()
        &&& self.column_mapping.valid_for(self.store@.len())
        &&& forall|i: int| 0 <= i < self.written@.len() ==> {
            &&& (#[trigger] self.written@[i]).0 < self.store@.len()
            &&& self.written_set@.contains(written_view(self.written@[i]))
        }
        &&& forall|x: (int, Seq<u8>)| #[trigger] self.written_set@.contains(x) ==> exists|i: int|
            0 <= i < self.written@.len() && written_view(self.written@[i]) == x
    }
}

impl BonsaiTransaction {
    /// Adds `key` in `column` to the keys written.
    fn record(&mut self, column: usize, key: &[u8])
        requires
            old(self).wf(),
            column < old(self).store@.len(),
        ensures
            final(self).wf(),
            final(self).mark == old(self).mark,
            final(self).store == old(self).store,
            final(self).column_mapping == old(self).column_mapping,
            final(self).written() == old(self).written().insert((column as int, key@)),
    {
        let ghost s0 = self.written_set@;
        self.written.push((column, crate::bytes::copy_bytes(key)));
        self.written_set = Ghost(s0.insert((column as int, key@)));
        proof {
            let n = self.written@.len() - 1;
            assert(written_view(self.written@[n]) == (column as int, key@));
            assert forall|x: (int, Seq<u8>)| #[trigger] self.written_set@.contains(x) implies exists|i: int|
                0 <= i < self.written@.len() && written_view(self.written@[i]) == x by {
                if x != (column as int, key@) {
                    let i = choose|i: int| 0 <= i < old(self).written@.len() && written_view(old(self).written@[i]) == x;
                    assert(self.written@[i] == old(self).written@[i]);
                }
            }
            assert forall|i: int| 0 <= i < self.written@.len() implies {
                &&& (#[trigger] self.written@[i]).0 < self.store@.len()
                &&& self.written_set@.contains(written_view(self.written@[i]))
            } by {
                if i < n {
                    assert(self.written@[i] == old(self).written@[i]);
                }
            }
        }
    }

    /// Whether the transaction has written `key` in `column`.
    fn has_written(&self, column: usize, key: &[u8]) -> (r: bool)
        requires
            self.wf(),
        ensures
            r == self.written().contains((column as int, key@)),
    {
        let mut i: usize = 0;
        while i < self.written.len()
            invariant
                self.wf(),
                0 <= i <= self.written@.len(),
                forall|j: int| 0 <= j < i ==> written_view(#[trigger] self.written@[j]) != (column as int, key@),
            decreases self.written@.len() - i,
        {
            if self.written[i].0 == column && crate::bytes::bytes_eq(self.written[i].1.as_slice(), key) {
                assert(self.written_set@.contains(written_view(self.written@[i as int])));
                return true;
            }
            i += 1;
        }
        proof {
            if self.written_set@.contains((column as int, key@)) {
                let j = choose|j: int| 0 <= j < self.written@.len() && written_view(self.written@[j]) == (column as int, key@);
                assert(written_view(self.written@[j]) != (column as int, key@));
            }
        }
        false
    }

    /// A change to what the transaction reads alone keeps it well formed.
    proof fn lemma_frame(a: BonsaiTransaction, b: BonsaiTransaction)
        requires
            a.wf(),
            b.store.wf(),
            b.store@.len() == a.store@.len(),
            b.mark == a.mark,
            b.column_mapping == a.column_mapping,
            b.written@ == a.written@,
            b.written_set@ == a.written_set@,
        ensures
            b.wf(),
    {
        assert forall|x: (int, Seq<u8>)| #[trigger] b.written_set@.contains(x) implies exists|i: int|
            0 <= i < b.written@.len() && written_view(b.written@[i]) == x by {
            let i = choose|i: int| 0 <= i < a.written@.len() && written_view(a.written@[i]) == x;
            assert(written_view(b.written@[i]) == x);
        }
    }

    /// An empty batch.
    pub fn create_batch(&self) -> (r: Batch)
        ensures
            r@ == Seq::<(int, Seq<u8>, Option<Seq<u8>>)>::empty(),
    {
        Batch::new()
    }

    /// The value that the transaction reads at `key`.
    pub fn get(&self, key: &DatabaseKey) -> (r: Result<Option<Vec<u8>>, StorageError>)
        requires
            self.wf(),
        ensures
            r matches Ok(v) && opt_bytes(v) == lookup(self.current()[self.mapping().column_of(*key) as int], key.bytes()),
    {
        let c = self.column_mapping.map(key);
        self.store.get(c, key.as_slice())
    }

    /// The keys and values that the transaction reads in `prefix`'s namespace
    /// whose keys start with its bytes, in increasing lexicographic order of
    /// key.
    pub fn get_by_prefix(&self, prefix: &DatabaseKey) -> (r: Result<Vec<(Vec<u8>, Vec<u8>)>, StorageError>)
        requires
            self.wf(),
        ensures
            r matches Ok(v) && lists_exactly(
                pair_views(v@),
                with_prefix(self.current()[self.mapping().column_of(*prefix) as int], prefix.bytes()),
            ) && sorted_by_key(pair_views(v@)),
    {
        let c = self.column_mapping.map(prefix);
        self.store.get_by_prefix(c, prefix.as_slice())
    }

    /// Whether the transaction reads a value at `key`.
    pub fn contains(&self, key: &DatabaseKey) -> (r: Result<bool, StorageError>)
        requires
            self.wf(),
        ensures
            r == Ok::<bool, StorageError>(
                self.current()[self.mapping().column_of(*key) as int].contains_key(key.bytes()),
            ),
    {
        let c = self.column_mapping.map(key);
        self.store.contains(c, key.as_slice())
    }

    /// Sets `key` to `value` in the transaction; returns the value it read
    /// there before.
    pub fn insert(&mut self, key: &DatabaseKey, value: &[u8]) -> (r: Result<Option<Vec<u8>>, StorageError>)
        requires
            old(self).wf(),
        ensures
            final(self).wf(),
            final(self).mapping() == old(self).mapping(),
            final(self).mark() == old(self).mark(),
            r matches Ok(v) && opt_bytes(v) == lookup(
                old(self).current()[old(self).mapping().column_of(*key) as int],
                key.bytes(),
            ),
            final(self).current() == old(self).current().update(
                old(self).mapping().column_of(*key) as int,
                old(self).current()[old(self).mapping().column_of(*key) as int].insert(key.bytes(), value@),
            ),
            final(self).written() == old(self).written().insert(
                (old(self).mapping().column_of(*key) as int, key.bytes()),
            ),
    {
        let c = self.column_mapping.map(key);
        self.record(c, key.as_slice());
        let ghost before = *self;
        let r = self.store.insert(c, key.as_slice(), value);
        proof {
            BonsaiTransaction::lemma_frame(before, *self);
        }
        r
    }

    /// Leaves the transaction as it is and appends the write of `value` at
    /// `key` to `batch`; returns the value that it reads at `key` now.
    pub fn insert_into_batch(&self, key: &DatabaseKey, value: &[u8], batch: &mut Batch) -> (r: Result<
        Option<Vec<u8>>,
        StorageError,
    >)
        requires
            self.wf(),
        ensures
            r matches Ok(v) && opt_bytes(v) == lookup(self.current()[self.mapping().column_of(*key) as int], key.bytes()),
            final(batch)@ == old(batch)@.push(
                (self.mapping().column_of(*key) as int, key.bytes(), Some(value@)),
            ),
    {
        let c = self.column_mapping.map(key);
        let prev = self.store.get(c, key.as_slice());
        batch.put(c, key.as_slice(), value);
        prev
    }

    /// Removes `key` in the transaction; returns the value it read there
    /// before.
    pub fn remove(&mut self, key: &DatabaseKey) -> (r: Result<Option<Vec<u8>>, StorageError>)
        requires
            old(self).wf(),
        ensures
            final(self).wf(),
            final(self).mapping() == old(self).mapping(),
            final(self).mark() == old(self).mark(),
            r matches Ok(v) && opt_bytes(v) == lookup(
                old(self).current()[old(self).mapping().column_of(*key) as int],
                key.bytes(),
            ),
            final(self).current() == old(self).current().update(
                old(self).mapping().column_of(*key) as int,
                old(self).current()[old(self).mapping().column_of(*key) as int].remove(key.bytes()),
            ),
            final(self).written() == old(self).written().insert(
                (old(self).mapping().column_of(*key) as int, key.bytes()),
            ),
    {
        let c = self.column_mapping.map(key);
        self.record(c, key.as_slice());
        let ghost before = *self;
        let r = self.store.remove(c, key.as_slice());
        proof {
            BonsaiTransaction::lemma_frame(before, *self);
        }
        r
    }

    /// Leaves the transaction as it is and appends the deletion of `key` to
    /// `batch`; returns the value that it reads at `key` now.
    pub fn remove_into_batch(&self, key: &DatabaseKey, batch: &mut Batch) -> (r: Result<
        Option<Vec<u8>>,
        StorageError,
    >)
        requires
            self.wf(),
        ensures
            r matches Ok(v) && opt_bytes(v) == lookup(self.current()[self.mapping().column_of(*key) as int], key.bytes()),
            final(batch)@ == old(batch)@.push(
                (self.mapping().column_of(*key) as int, key.bytes(), None::<Seq<u8>>),
            ),
    {
        let c = self.column_mapping.map(key);
        let prev = self.store.get(c, key.as_slice());
        batch.delete(c, key.as_slice());
        prev
    }

    /// Removes in the transaction every key of `prefix`'s namespace that
    /// starts with its bytes, and no other; each one removed counts as
    /// written.
    pub fn remove_by_prefix(&mut self, prefix: &DatabaseKey) -> (r: Result<(), StorageError>)
        requires
            old(self).wf(),
        ensures
            final(self).wf(),
            final(self).mapping() == old(self).mapping(),
            final(self).mark() == old(self).mark(),
            r is Ok,
            final(self).current() == old(self).current().update(
                old(self).mapping().column_of(*prefix) as int,
                without_prefix(old(self).current()[old(self).mapping().column_of(*prefix) as int], prefix.bytes()),
            ),
            final(self).written() == old(self).written().union(Set::new(|x: (int, Seq<u8>)|
                x.0 == old(self).mapping().column_of(*prefix) as int && with_prefix(
                    old(self).current()[old(self).mapping().column_of(*prefix) as int],
                    prefix.bytes(),
                ).contains_key(x.1))),
    {
        let c = self.column_mapping.map(prefix);
        let keys = self.store.keys_with_prefix(c, prefix.as_slice());
        let ghost m = with_prefix(self.store@[c as int], prefix.bytes());
        let ghost w0 = self.written_set@;
        assert(w0.union(Set::new(|x: (int, Seq<u8>)|
            x.0 == c as int && key_views(keys@).subrange(0, 0).contains(x.1))) =~= w0);
        let mut i: usize = 0;
        while i < keys.len()
            invariant
                self.wf(),
                self.store == old(self).store,
                self.mark == old(self).mark,
                self.column_mapping == old(self).column_mapping,
                c < self.store@.len(),
                0 <= i <= keys@.len(),
                self.written_set@ == w0.union(Set::new(|x: (int, Seq<u8>)|
                    x.0 == c as int && key_views(keys@).subrange(0, i as int).contains(x.1))),
            decreases keys@.len() - i,
        {
            let ghost s0 = self.written_set@;
            self.record(c, keys[i].as_slice());
            proof {
                let ks = key_views(keys@);
                let sa = ks.subrange(0, i as int);
                let sb = ks.subrange(0, i + 1);
                assert(ks[i as int] == keys@[i as int]@);
                assert forall|k: Seq<u8>| sb.contains(k) <==> (sa.contains(k) || k == ks[i as int]) by {
                    if sb.contains(k) {
                        let j = choose|j: int| 0 <= j < sb.len() && sb[j] == k;
                        if j < i {
                            assert(sa[j] == k);
                        }
                    }
                    if sa.contains(k) {
                        let j = choose|j: int| 0 <= j < sa.len() && sa[j] == k;
                        assert(sb[j] == k);
                    }
                    if k == ks[i as int] {
                        assert(sb[i as int] == k);
                    }
                }
                assert(self.written_set@ =~= w0.union(Set::new(|x: (int, Seq<u8>)|
                    x.0 == c as int && sb.contains(x.1))));
            }
            i += 1;
        }
        proof {
            let ks = key_views(keys@);
            assert(ks.subrange(0, keys@.len() as int) =~= ks);
            assert(self.written_set@ =~= old(self).written().union(Set::new(|x: (int, Seq<u8>)|
                x.0 == c as int && m.contains_key(x.1))));
        }
        let ghost before = *self;
        let r = self.store.remove_by_prefix(c, prefix.as_slice());
        proof {
            BonsaiTransaction::lemma_frame(before, *self);
        }
        r
    }

    /// Applies the writes of `batch` in the transaction, all of them or, where
    /// one names a missing column, none; each key of the batch counts as
    /// written.
    pub fn write_batch(&mut self, batch: Batch) -> (r: Result<(), StorageError>)
        requires
            old(self).wf(),
        ensures
            final(self).wf(),
            final(self).mapping() == old(self).mapping(),
            final(self).mark() == old(self).mark(),
            ops_in_columns(batch@, old(self).current().len() as int) ==> {
                &&& r is Ok
                &&& final(self).current() == apply_ops(old(self).current(), batch@)
                &&& final(self).written() == old(self).written().union(batch_keys(batch@, batch@.len() as int))
            },
            !ops_in_columns(batch@, old(self).current().len() as int) ==> r is Err
                && r->Err_0 == StorageError::MissingColumn && final(self).current() == old(self).current()
                && final(self).written() == old(self).written(),
    {
        let n = self.store.n_columns();
        let mut i: usize = 0;
        while i < batch.ops.len()
            invariant
                self.wf(),
                self.store == old(self).store,
                self.mark == old(self).mark,
                self.column_mapping == old(self).column_mapping,
                self.written_set == old(self).written_set,
                0 <= i <= batch.ops@.len(),
                n == self.store@.len(),
                forall|j: int| 0 <= j < i ==> 0 <= #[trigger] batch@[j].0 < n,
            decreases batch.ops@.len() - i,
        {
            if batch.ops[i].column >= n {
                assert(!(0 <= batch@[i as int].0 < n));
                return Err(StorageError::MissingColumn);
            }
            i += 1;
        }
        let ghost w0 = self.written_set@;
        let ghost bv = batch@;
        assert(w0.union(batch_keys(bv, 0)) =~= w0);
        let mut i: usize = 0;
        while i < batch.ops.len()
            invariant
                self.wf(),
                self.store == old(self).store,
                self.mark == old(self).mark,
                self.column_mapping == old(self).column_mapping,
                bv == batch@,
                n == self.store@.len(),
                ops_in_columns(bv, n as int),
                0 <= i <= bv.len(),
                self.written_set@ == w0.union(batch_keys(bv, i as int)),
            decreases bv.len() - i,
        {
            let ghost s0 = self.written_set@;
            assert(bv[i as int] == crate::store::op_view(batch.ops@[i as int]));
            assert(0 <= bv[i as int].0 < n);
            self.record(batch.ops[i].column, batch.ops[i].key.as_slice());
            proof {
                let x0 = batch_key(bv[i as int]);
                let sa = batch_keys(bv, i as int);
                let sb = batch_keys(bv, i + 1);
                assert forall|x: (int, Seq<u8>)| sb.contains(x) <==> (sa.contains(x) || x == x0) by {
                    if x == x0 {
                        assert(batch_key(bv[i as int]) == x);
                    }
                    if sb.contains(x) {
                        let j = choose|j: int| 0 <= j < i + 1 && #[trigger] batch_key(bv[j]) == x;
                        if j < i {
                            assert(batch_key(bv[j]) == x);
                        }
                    }
                    if sa.contains(x) {
                        let j = choose|j: int| 0 <= j < i && #[trigger] batch_key(bv[j]) == x;
                        assert(batch_key(bv[j]) == x);
                    }
                }
                assert(self.written_set@ =~= w0.union(sb));
            }
            i += 1;
        }
        let ghost before = *self;
        let r = self.store.write_batch(batch);
        proof {
            lemma_apply_ops_len(old(self).current(), bv);
            BonsaiTransaction::lemma_frame(before, *self);
            assert(self.written_set@ =~= old(self).written().union(batch_keys(bv, bv.len() as int)));
        }
        r
    }
}

/// Once a transaction is merged, each key that it wrote reads in the live
/// store what the transaction read there, and every other key keeps the live
/// store's value.
pub proof fn lemma_merge_visibility(live: Columns, txn: Columns, written: Set<(int, Seq<u8>)>, c: int, k: Seq<u8>)
    requires
        0 <= c < live.len(),
        txn.len() == live.len(),
    ensures
        written.contains((c, k)) ==> lookup(merged(live, txn, written)[c], k) == lookup(txn[c], k),
        !written.contains((c, k)) ==> lookup(merged(live, txn, written)[c], k) == lookup(live[c], k),
        merged(live, txn, written).len() == live.len(),
{
}

/// Two transactions opened on one snapshot that both write a key: where the
/// live store was not written since the snapshot, the first merges, and the
/// second then conflicts, whatever values either of them wrote.
pub proof fn lemma_write_write_conflict(
    log: Seq<(int, Seq<u8>)>,
    mark: int,
    first_written: Set<(int, Seq<u8>)>,
    log_after_first: Seq<(int, Seq<u8>)>,
    second_written: Set<(int, Seq<u8>)>,
    c: int,
    k: Seq<u8>,
)
    requires
        mark == log.len(),
        first_written.contains((c, k)),
        second_written.contains((c, k)),
        appended(log, log_after_first, first_written),
    ensures
        !conflicts(log, mark, first_written),
        conflicts(log_after_first, mark, second_written),
{
    let tail = log_after_first.subrange(log.len() as int, log_after_first.len() as int);
    assert(tail.contains((c, k)));
    let j = choose|j: int| 0 <= j < tail.len() && tail[j] == (c, k);
    assert(log_after_first[log.len() + j] == (c, k));
}

} // verus!