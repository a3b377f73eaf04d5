//! The keyed store: numbered columns of byte keys and values, written one
//! key at a time or through atomic batches.

use vstd::prelude::*;
use crate::bytes::{copy_bytes, opt_bytes};
use crate::error::StorageError;
use crate::table::{lists_exactly, lookup, pair_views, sorted_by_key, with_prefix, without_prefix, Table};

verus! {

/// The contents of a store: one map per column.
pub type Columns = Seq<Map<Seq<u8>, Seq<u8>>>;

/// One write of a batch: a column, a key, and the value to put there, or
/// `None` to delete the key.
pub struct BatchOp {
    pub column: usize,
    pub key: Vec<u8>,
    pub value: Option<Vec<u8>>,
}

/// The write `op` as plain values.
pub open spec fn op_view(op: BatchOp) -> (int, Seq<u8>, Option<Seq<u8>>) {
    (op.column as int, op.key@, opt_bytes(op.value))
}

/// A list of writes that a store applies all together, in order.
pub struct Batch {
    pub ops: Vec<BatchOp>,
}

impl View for Batch {
    type V = Seq<(int, Seq<u8>, Option<Seq<u8>>)>;

    open spec fn view(&self) -> Seq<(int, Seq<u8>, Option<Seq<u8>>)> {
        self.ops@.map_values(|op: BatchOp| op_view(op))
    }
}

impl Batch {
    /// An empty batch.
    pub fn new() -> (r: Batch)
        ensures
            r@ == Seq::<(int, Seq<u8>, Option<Seq<u8>>)>::empty(),
    {
        let r = Batch { ops: Vec::new() };
        assert(r@ =~= Seq::<(int, Seq<u8>, Option<Seq<u8>>)>::empty());
        r
    }

    /// Appends a write of `value` at `key` in `column`.
    pub fn put(&mut self, column: usize, key: &[u8], value: &[u8])
        ensures
            final(self)@ == old(self)@.push((column as int, key@, Some(value@))),
    {
        let op = BatchOp { column, key: copy_bytes(key), value: Some(copy_bytes(value)) };
        self.ops.push(op);
        assert(self@ =~= old(self)@.push((column as int, key@, Some(value@))));
    }

    /// Appends a deletion of `key` in `column`.
    pub fn delete(&mut self, column: usize, key: &[u8])
        ensures
            final(self)@ == old(self)@.push((column as int, key@, None::<Seq<u8>>)),
    {
        let op = BatchOp { column, key: copy_bytes(key), value: None };
        self.ops.push(op);
        assert(self@ =~= old(self)@.push((column as int, key@, None::<Seq<u8>>)));
    }
}

/// A map after one write: the value put, or the key deleted.
pub open spec fn write_map(m: Map<Seq<u8>, Seq<u8>>, k: Seq<u8>, v: Option<Seq<u8>>) -> Map<Seq<u8>, Seq<u8>> {
    match v {
        Some(v) => m.insert(k, v),
        None => m.remove(k),
    }
}

/// The columns after one write.
pub open spec fn apply_op(cols: Columns, op: (int, Seq<u8>, Option<Seq<u8>>)) -> Columns {
    if 0 <= op.0 < cols.len() {
        cols.update(op.0, write_map(cols[op.0], op.1, op.2))
    } else {
        cols
    }
}

/// The columns after the writes `ops`, in order.
pub open spec fn apply_ops(cols: Columns, ops: Seq<(int, Seq<u8>, Option<Seq<u8>>)>) -> Columns
    decreases ops.len(),
{
    if ops.len() == 0 {
        cols
    } else {
        apply_op(apply_ops(cols, ops.drop_last()), ops.last())
    }
}

/// Whether every write of `ops` names one of the first `n` columns.
pub open spec fn ops_in_columns(ops: Seq<(int, Seq<u8>, Option<Seq<u8>>)>, n: int) -> bool {
    forall|i: int| 0 <= i < ops.len() ==> 0 <= #[trigger] ops[i].0 < n
}

/// A store of numbered columns, each a map from byte keys to byte values.
pub struct KeyedStore {
    columns: Vec<Table>,
}

impl View for KeyedStore {
    type V = Columns;

    closed spec fn view(&self) -> Columns {
        self.columns@.map_values(|t: Table| t@)
    }
}

impl KeyedStore {
    /// Each column is well formed.
    pub closed spec fn wf(&self) -> bool {
        forall|i: int| 0 <= i < self.columns@.len() ==> (#[trigger] self.columns@[i]).wf()
    }

    /// A store of `n` empty columns.
    pub fn new(n: usize) -> (r: KeyedStore)
        ensures
            r.wf(),
            r@ == Seq::new(n as nat, |i: int| Map::<Seq<u8>, Seq<u8>>::empty()),
    {
        let mut columns: Vec<Table> = Vec::new();
        let mut i: usize = 0;
        while i < n
            invariant
                0 <= i <= n,
                columns@.len() == i,
                forall|j: int| 0 <= j < i ==> (#[trigger] columns@[j]).wf() && columns@[j]@ == Map::<Seq<u8>, Seq<u8>>::empty(),
            decreases n - i,
        {
            columns.push(Table::new());
            i += 1;
        }
        let r = KeyedStore { columns };
        assert(r@ =~= Seq::new(n as nat, |i: int| Map::<Seq<u8>, Seq<u8>>::empty()));
        r
    }

    /// The number of columns.
    pub fn n_columns(&self) -> (r: usize)
        ensures
            r == self@.len(),
    {
        self.columns.len()
    }

    /// A copy of the store, as it is now.
    pub fn duplicate(&self) -> (r: KeyedStore)
        requires
            self.wf(),
        ensures
            r.wf(),
            r@ == self@,
    {
        let mut columns: Vec<Table> = Vec::new();
        let mut i: usize = 0;
        while i < self.columns.len()
            invariant
                self.wf(),
                0 <= i <= self.columns@.len(),
                columns@.len() == i,
                forall|j: int| 0 <= j < i ==> (#[trigger] columns@[j]).wf() && columns@[j]@ == self.columns@[j]@,
            decreases self.columns@.len() - i,
        {
            columns.push(self.columns[i].duplicate());
            i += 1;
        }
        let r = KeyedStore { columns };
        assert(r@ =~= self@);
        r
    }

    /// The value at `key` in `column`.
    pub fn get(&self, column: usize, key: &[u8]) -> (r: Result<Option<Vec<u8>>, StorageError>)
        requires
            self.wf(),
        ensures
            column < self@.len() ==> (r matches Ok(v) && opt_bytes(v) == lookup(self@[column as int], key@)),
            column >= self@.len() ==> r == Err::<Option<Vec<u8>>, StorageError>(StorageError::MissingColumn),
    {
        if column >= self.columns.len() {
            return Err(StorageError::MissingColumn);
        }
        Ok(self.columns[column].get(key))
    }

    /// Whether `column` holds a value at `key`.
    pub fn contains(&self, column: usize, key: &[u8]) -> (r: Result<bool, StorageError>)
        requires
            self.wf(),
        ensures
            column < self@.len() ==> r == Ok::<bool, StorageError>(self@[column as int].contains_key(key@)),
            column >= self@.len() ==> r == Err::<bool, StorageError>(StorageError::MissingColumn),
    {
        if column >= self.columns.len() {
            return Err(StorageError::MissingColumn);
        }
        Ok(self.columns[column].contains(key))
    }

    /// The keys and values of `column` whose keys start with `prefix`, in
    /// increasing lexicographic order of key.
    pub fn get_by_prefix(&self, column: usize, prefix: &[u8]) -> (r: Result<Vec<(Vec<u8>, Vec<u8>)>, StorageError>)
        requires
            self.wf(),
        ensures
            column < self@.len() ==> (r matches Ok(v) && lists_exactly(pair_views(v@), with_prefix(self@[column as int], prefix@))
                && sorted_by_key(pair_views(v@))),
            column >= self@.len() ==> r is Err && r->Err_0 == StorageError::MissingColumn,
    {
        if column >= self.columns.len() {
            return Err(StorageError::MissingColumn);
        }
        Ok(self.columns[column].get_by_prefix(prefix))
    }

    /// The keys of `column` that start with `prefix`.
    pub fn keys_with_prefix(&self, column: usize, prefix: &[u8]) -> (r: Vec<Vec<u8>>)
        requires
            self.wf(),
            column < self@.len(),
        ensures
            forall|k: Seq<u8>| with_prefix(self@[column as int], prefix@).contains_key(k)
                <==> crate::table::key_views(r@).contains(k),
    {
        let pairs = self.columns[column].get_by_prefix(prefix);
        let ghost m = with_prefix(self@[column as int], prefix@);
        let mut r: Vec<Vec<u8>> = Vec::new();
        let mut i: usize = 0;
        while i < pairs.len()
            invariant
                lists_exactly(pair_views(pairs@), m),
                0 <= i <= pairs@.len(),
                r@.len() == i,
                forall|j: int| 0 <= j < i ==> #[trigger] r@[j]@ == pairs@[j].0@,
            decreases pairs@.len() - i,
        {
            r.push(copy_bytes(pairs[i].0.as_slice()));
            i += 1;
        }
        proof {
            let ps = pair_views(pairs@);
            let ks = crate::table::key_views(r@);
            assert forall|k: Seq<u8>| m.contains_key(k) <==> ks.contains(k) by {
                if m.contains_key(k) {
                    let a = choose|a: int| 0 <= a < ps.len() && ps[a].0 == k;
                    assert(ks[a] == k);
                }
                if ks.contains(k) {
                    let a = choose|a: int| 0 <= a < ks.len() && ks[a] == k;
                    assert(ps[a].0 == r@[a]@);
                }
            }
        }
        r
    }

    /// Takes column `c` out of the store, to be put back by `put_column`.
    fn take_column(&mut self, c: usize) -> (t: Table)
        requires
            old(self).wf(),
            c < old(self)@.len(),
        ensures
            t.wf(),
            t@ == old(self)@[c as int],
            final(self).columns@ == old(self).columns@.remove(c as int),
    {
        let t = self.columns.remove(c);
        t
    }

    /// Puts back a column taken out by `take_column`.
    fn put_column(&mut self, c: usize, t: Table)
        requires
            t.wf(),
            c <= old(self).columns@.len(),
            forall|i: int| 0 <= i < old(self).columns@.len() ==> (#[trigger] old(self).columns@[i]).wf(),
        ensures
            final(self).wf(),
            final(self).columns@ == old(self).columns@.insert(c as int, t),
    {
        self.columns.insert(c, t);
    }

    /// Sets `key` in `column` to `value`; returns the value held there before.
    pub fn insert(&mut self, column: usize, key: &[u8], value: &[u8]) -> (r: Result<Option<Vec<u8>>, StorageError>)
        requires
            old(self).wf(),
        ensures
            final(self).wf(),
            column < old(self)@.len() ==> {
                &&& (r matches Ok(v) && opt_bytes(v) == lookup(old(self)@[column as int], key@))
                &&& final(self)@ == old(self)@.update(column as int, old(self)@[column as int].insert(key@, value@))
            },
            column >= old(self)@.len() ==> r is Err && r->Err_0 == StorageError::MissingColumn && final(self)@ == old(self)@,
    {
        if column >= self.columns.len() {
            return Err(StorageError::MissingColumn);
        }
        let ghost c0 = self.columns@;
        let mut t = self.take_column(column);
        let prev = t.insert(key, value);
        self.put_column(column, t);
        proof {
            assert(self.columns@ =~= c0.update(column as int, t));
            assert(self@ =~= old(self)@.update(column as int, old(self)@[column as int].insert(key@, value@)));
        }
        Ok(prev)
    }

    /// Removes `key` from `column`; returns the value held there before.
    pub fn remove(&mut self, column: usize, key: &[u8]) -> (r: Result<Option<Vec<u8>>, StorageError>)
        requires
            old(self).wf(),
        ensures
            final(self).wf(),
            column < old(self)@.len() ==> {
                &&& (r matches Ok(v) && opt_bytes(v) == lookup(old(self)@[column as int], key@))
                &&& final(self)@ == old(self)@.update(column as int, old(self)@[column as int].remove(key@))
            },
            column >= old(self)@.len() ==> r is Err && r->Err_0 == StorageError::MissingColumn && final(self)@ == old(self)@,
    {
        if column >= self.columns.len() {
            return Err(StorageError::MissingColumn);
        }
        let ghost c0 = self.columns@;
        let mut t = self.take_column(column);
        let prev = t.remove(key);
        self.put_column(column, t);
        proof {
            assert(self.columns@ =~= c0.update(column as int, t));
            assert(self@ =~= old(self)@.update(column as int, old(self)@[column as int].remove(key@)));
        }
        Ok(prev)
    }

    /// Removes from `column` every key that starts with `prefix`, and no other.
    pub fn remove_by_prefix(&mut self, column: usize, prefix: &[u8]) -> (r: Result<(), StorageError>)
        requires
            old(self).wf(),
        ensures
            final(self).wf(),
            column < old(self)@.len() ==> r is Ok
                && final(self)@ == old(self)@.update(column as int, without_prefix(old(self)@[column as int], prefix@)),
            column >= old(self)@.len() ==> r is Err && r->Err_0 == StorageError::MissingColumn && final(self)@ == old(self)@,
    {
        if column >= self.columns.len() {
            return Err(StorageError::MissingColumn);
        }
        let ghost c0 = self.columns@;
        let mut t = self.take_column(column);
        t.remove_by_prefix(prefix);
        self.put_column(column, t);
        proof {
            assert(self.columns@ =~= c0.update(column as int, t));
            assert(self@ =~= old(self)@.update(column as int, without_prefix(old(self)@[column as int], prefix@)));
        }
        Ok(())
    }

    /// Applies the writes of `batch` in order, all of them or, where one names
    /// a missing column, none.
    pub fn write_batch(&mut self, batch: Batch) -> (r: Result<(), StorageError>)
        requires
            old(self).wf(),
        ensures
            final(self).wf(),
            ops_in_columns(batch@, old(self)@.len() as int) ==> r is Ok && final(self)@ == apply_ops(old(self)@, batch@),
            !ops_in_columns(batch@, old(self)@.len() as int) ==> r is Err && r->Err_0 == StorageError::MissingColumn
                && final(self)@ == old(self)@,
    {
        let n = self.columns.len();
        let mut i: usize = 0;
        while i < batch.ops.len()
            invariant
                0 <= i <= batch.ops@.len(),
                self.wf(),
                self@ == old(self)@,
                n == self@.len(),
                forall|j: int| 0 <= j < i ==> 0 <= #[trigger] batch@[j].0 < n,
            decreases batch.ops@.len() - i,
        {
            if batch.ops[i].column >= n {
                assert(!(0 <= batch@[i as int].0 < n));
                return Err(StorageError::MissingColumn);
            }
            i += 1;
        }
        let ghost start = self@;
        let mut i: usize = 0;
        while i < batch.ops.len()
            invariant
                self.wf(),
                0 <= i <= batch.ops@.len(),
                n == self@.len(),
                ops_in_columns(batch@, n as int),
                self@ == apply_ops(start, batch@.subrange(0, i as int)),
            decreases batch.ops@.len() - i,
        {
            let op = &batch.ops[i];
            let ghost before = self@;
            match &op.value {
                Some(v) => {
                    let _ = self.insert(op.column, op.key.as_slice(), v.as_slice());
                },
                None => {
                    let _ = self.remove(op.column, op.key.as_slice());
                },
            }
            proof {
                let ops = batch@.subrange(0, i + 1);
                assert(ops.drop_last() =~= batch@.subrange(0, i as int));
                assert(ops.last() == batch@[i as int]);
                assert(batch@[i as int] == op_view(batch.ops@[i as int]));
                assert(0 <= batch@[i as int].0 < n);
            }
            i += 1;
        }
        assert(batch@.subrange(0, batch@.len() as int) =~= batch@);
        Ok(())
    }
}

} // verus!
