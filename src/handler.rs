//! The storage handler: stages leaves of a trie, commits them as of a block
//! through a snapshot and a transaction of the adapter, and merges them into
//! the live store; each step checks that it comes in its turn. The roots
//! over these leaves are the trie library's to compute.

use vstd::prelude::*;
use crate::bonsai_db::{merged, BonsaiDb, BonsaiTransaction, DatabaseKey};
use crate::bytes::opt_bytes;
use crate::commitment::CommitmentError;
use crate::felt::Felt;
use crate::store::Columns;
use crate::table::{lists_exactly, lookup, pair_views, with_prefix, Table};

verus! {

/// Where a handler stands in its cycle.
#[derive(Clone, Copy, Debug, PartialEq, Eq, Structural)]
pub enum Phase {
    Empty,
    Initialized,
    Staged,
    Committed,
    Merged,
}

/// The flat key of the leaf `key` of the trie `identifier`.
pub open spec fn leaf_key(identifier: Seq<u8>, key: Seq<u8>) -> Seq<u8> {
    identifier + key
}

/// The live columns with `staged` written over the column `flat`.
pub open spec fn with_staged(live: Columns, flat: int, staged: Map<Seq<u8>, Seq<u8>>) -> Columns {
    live.update(flat, live[flat].union_prefer_right(staged))
}

/// The flat key of the leaf `key` of the trie `identifier`.
fn make_leaf_key(identifier: &Felt, key: &Felt) -> (r: Vec<u8>)
    ensures
        r@ == leaf_key(identifier@, key@),
{
    let mut v = identifier.to_vec();
    let k = key.to_vec();
    let mut i: usize = 0;
    let ghost v0 = v@;
    while i < k.len()
        invariant
            0 <= i <= k@.len(),
            v@ == v0 + k@.subrange(0, i as int),
        decreases k@.len() - i,
    {
        v.push(k[i]);
        i += 1;
        assert(v@ =~= v0 + k@.subrange(0, i as int));
    }
    assert(k@.subrange(0, k@.len() as int) =~= k@);
    v
}

/// A handler over the tries stored in one adapter.
pub struct StorageHandler {
    db: BonsaiDb,
    phase: Phase,
    staged: Table,
    pending: Option<BonsaiTransaction>,
}

impl StorageHandler {
    /// The adapter's live columns.
    pub closed spec fn live(&self) -> Columns {
        self.db.live()
    }

    /// The column that holds the leaves.
    pub closed spec fn flat_column(&self) -> int {
        self.db.mapping().flat as int
    }

    /// The leaves staged and not yet merged, by flat key.
    pub closed spec fn staged(&self) -> Map<Seq<u8>, Seq<u8>> {
        self.staged@
    }

    /// The adapter's snapshots, by version.
    pub closed spec fn snapshots(&self) -> Map<u64, Columns> {
        self.db.snapshots()
    }

    /// Where the handler stands.
    pub closed spec fn phase(&self) -> Phase {
        self.phase
    }

    /// The leaves merged so far, by flat key.
    pub open spec fn committed(&self) -> Map<Seq<u8>, Seq<u8>> {
        self.live()[self.flat_column()]
    }

    /// The adapter, the staged leaves and the pending transaction agree.
    pub closed spec fn wf(&self) -> bool {
        &&& self.db.wf()
        &&& self.staged.wf()
        &&& self.db.mapping().valid_for(self.db.live().len())
        &&& (self.phase == Phase::Committed) == self.pending.is_some()
        &&& self.pending matches Some(t) ==> {
            &&& t.wf()
            &&& t.mapping() == self.db.mapping()
            &&& t.mark() == self.db.log().len()
            &&& t.current() == with_staged(self.db.live(), self.db.mapping().flat as int, self.staged@)
            &&& t.written() == Set::new(
                |x: (int, Seq<u8>)| x.0 == self.db.mapping().flat as int && self.staged@.contains_key(x.1),
            )
        }
    }

    /// A handler over `db`, with nothing staged.
    pub fn new(db: BonsaiDb) -> (r: StorageHandler)
        requires
            db.wf(),
        ensures
            r.wf(),
            r.phase() == Phase::Empty,
            r.live() == db.live(),
            r.flat_column() == db.mapping().flat as int,
            r.staged() == Map::<Seq<u8>, Seq<u8>>::empty(),
    {
        proof {
            db.lemma_wf_mapping();
        }
        StorageHandler { db, phase: Phase::Empty, staged: Table::new(), pending: None }
    }

    /// Readies the handler for a new round of leaves; does nothing where it
    /// is ready already, and fails where a commit awaits merging.
    pub fn init(&mut self) -> (r: Result<(), CommitmentError>)
        requires
            old(self).wf(),
        ensures
            final(self).wf(),
            final(self).live() == old(self).live(),
            final(self).flat_column() == old(self).flat_column(),
            old(self).phase() == Phase::Committed ==> r == Err::<(), CommitmentError>(
                CommitmentError::InvariantViolation,
            ) && final(self).phase() == old(self).phase() && final(self).staged() == old(self).staged(),
            (old(self).phase() == Phase::Initialized || old(self).phase() == Phase::Staged) ==> r is Ok
                && final(self).phase() == old(self).phase() && final(self).staged() == old(self).staged(),
            (old(self).phase() == Phase::Empty || old(self).phase() == Phase::Merged) ==> r is Ok
                && final(self).phase() == Phase::Initialized && final(self).staged() == Map::<
                Seq<u8>,
                Seq<u8>,
            >::empty(),
    {
        match self.phase {
            Phase::Committed => Err(CommitmentError::InvariantViolation),
            Phase::Initialized | Phase::Staged => Ok(()),
            Phase::Empty | Phase::Merged => {
                self.phase = Phase::Initialized;
                self.staged = Table::new();
                Ok(())
            },
        }
    }

    /// Stages the leaf `key` of the trie `identifier` with `value`; fails
    /// where the handler was not initialised or a commit awaits merging.
    pub fn insert(&mut self, identifier: &Felt, key: &Felt, value: &Felt) -> (r: Result<(), CommitmentError>)
        requires
            old(self).wf(),
        ensures
            final(self).wf(),
            final(self).live() == old(self).live(),
            final(self).flat_column() == old(self).flat_column(),
            (old(self).phase() == Phase::Initialized || old(self).phase() == Phase::Staged) ==> r is Ok
                && final(self).phase() == Phase::Staged && final(self).staged() == old(self).staged().insert(
                leaf_key(identifier@, key@),
                value@,
            ),
            !(old(self).phase() == Phase::Initialized || old(self).phase() == Phase::Staged) ==> r
                == Err::<(), CommitmentError>(CommitmentError::InvariantViolation) && final(self).phase()
                == old(self).phase() && final(self).staged() == old(self).staged(),
    {
        match self.phase {
            Phase::Initialized | Phase::Staged => {
                let k = make_leaf_key(identifier, key);
                let v = value.to_vec();
                let _ = self.staged.insert(k.as_slice(), v.as_slice());
                self.phase = Phase::Staged;
                Ok(())
            },
            _ => Err(CommitmentError::InvariantViolation),
        }
    }

    /// Stages each leaf of `updates` in the trie `identifier`, in order.
    pub fn update(&mut self, identifier: &Felt, updates: &Vec<(Felt, Felt)>) -> (r: Result<(), CommitmentError>)
        requires
            old(self).wf(),
        ensures
            final(self).wf(),
            final(self).live() == old(self).live(),
            final(self).flat_column() == old(self).flat_column(),
            (old(self).phase() == Phase::Initialized || old(self).phase() == Phase::Staged) ==> r is Ok
                && final(self).phase() == (if updates@.len() == 0 { old(self).phase() } else { Phase::Staged })
                && final(self).staged() == old(self).staged().union_prefer_right(
                staged_updates(identifier@, updates@),
            ),
            !(old(self).phase() == Phase::Initialized || old(self).phase() == Phase::Staged) ==> r
                == Err::<(), CommitmentError>(CommitmentError::InvariantViolation) && final(self).phase()
                == old(self).phase() && final(self).staged() == old(self).staged(),
    {
        if !(matches!(self.phase, Phase::Initialized) || matches!(self.phase, Phase::Staged)) {
            return Err(CommitmentError::InvariantViolation);
        }
        let ghost s0 = self.staged@;
        let ghost phase0 = self.phase;
        let mut i: usize = 0;
        assert(s0.union_prefer_right(staged_updates(identifier@, updates@.subrange(0, 0))) =~= s0);
        while i < updates.len()
            invariant
                self.wf(),
                self.live() == old(self).live(),
                self.flat_column() == old(self).flat_column(),
                0 <= i <= updates@.len(),
                self.phase == (if i == 0 { phase0 } else { Phase::Staged }),
                phase0 == Phase::Initialized || phase0 == Phase::Staged,
                self.staged@ == s0.union_prefer_right(staged_updates(identifier@, updates@.subrange(0, i as int))),
            decreases updates@.len() - i,
        {
            let _ = self.insert(identifier, &updates[i].0, &updates[i].1);
            proof {
                let u0 = updates@.subrange(0, i as int);
                let u1 = updates@.subrange(0, i + 1);
                assert(u1.drop_last() =~= u0);
                assert(self.staged@ =~= s0.union_prefer_right(staged_updates(identifier@, u1)));
            }
            i += 1;
        }
        assert(updates@.subrange(0, updates@.len() as int) =~= updates@);
        Ok(())
    }

    /// Commits the staged leaves as of `version`: keeps a snapshot of the
    /// live store under it and writes the leaves in a transaction over that
    /// snapshot; fails where nothing was initialised or a commit awaits
    /// merging.
    pub fn commit(&mut self, version: u64) -> (r: Result<(), CommitmentError>)
        requires
            old(self).wf(),
        ensures
            final(self).wf(),
            final(self).live() == old(self).live(),
            final(self).flat_column() == old(self).flat_column(),
            final(self).staged() == old(self).staged(),
            (old(self).phase() == Phase::Initialized || old(self).phase() == Phase::Staged) ==> r is Ok
                && final(self).phase() == Phase::Committed
                && final(self).snapshots() == old(self).snapshots().insert(version, old(self).live()),
            !(old(self).phase() == Phase::Initialized || old(self).phase() == Phase::Staged)
                ==> final(self).snapshots() == old(self).snapshots(),
            !(old(self).phase() == Phase::Initialized || old(self).phase() == Phase::Staged) ==> r
                == Err::<(), CommitmentError>(CommitmentError::InvariantViolation) && final(self).phase()
                == old(self).phase(),
    {
        if !(matches!(self.phase, Phase::Initialized) || matches!(self.phase, Phase::Staged)) {
            return Err(CommitmentError::InvariantViolation);
        }
        self.db.snapshot(version);
        let t = self.db.transaction(version);
        let mut t = match t {
            Some(t) => t,
            None => {
                return Err(CommitmentError::InvariantViolation);
            },
        };
        let no_prefix: Vec<u8> = Vec::new();
        let pairs = self.staged.get_by_prefix(no_prefix.as_slice());
        let ghost flat = self.db.mapping().flat as int;
        let ghost sm = self.staged@;
        proof {
            assert(with_prefix(sm, Seq::<u8>::empty()) =~= sm) by {
                assert forall|k: Seq<u8>| crate::bytes::has_prefix(k, Seq::<u8>::empty()) by {
                    assert(k.subrange(0, 0) =~= Seq::<u8>::empty());
                }
            }
        }
        let mut i: usize = 0;
        proof {
            assert(t.current() =~~= with_staged(self.db.live(), flat, Map::empty()));
            assert(t.written() =~= Set::new(|x: (int, Seq<u8>)| x.0 == flat && pair_keys(pair_views(pairs@), 0).contains(x.1)));
        }
        while i < pairs.len()
            invariant
                self.wf(),
                self.phase == old(self).phase,
                self.staged@ == sm,
                self.live() == old(self).live(),
                self.db.mapping() == old(self).db.mapping(),
                flat == self.db.mapping().flat as int,
                lists_exactly(pair_views(pairs@), sm),
                0 <= i <= pairs@.len(),
                t.wf(),
                t.mapping() == self.db.mapping(),
                t.mark() == self.db.log().len(),
                self.db.log() == old(self).db.log(),
                self.db.snapshots() == old(self).db.snapshots().insert(version, old(self).db.live()),
                t.current() == with_staged(self.db.live(), flat, pair_map(pair_views(pairs@), i as int)),
                t.written() == Set::new(|x: (int, Seq<u8>)| x.0 == flat && pair_keys(pair_views(pairs@), i as int).contains(x.1)),
            decreases pairs@.len() - i,
        {
            let key = DatabaseKey::Flat(crate::bytes::copy_bytes(pairs[i].0.as_slice()));
            let _ = t.insert(&key, pairs[i].1.as_slice());
            proof {
                let ps = pair_views(pairs@);
                assert(ps[i as int] == (pairs@[i as int].0@, pairs@[i as int].1@));
                assert(pair_map(ps, i + 1) == pair_map(ps, i as int).insert(ps[i as int].0, ps[i as int].1));
                assert(t.current() =~~= with_staged(self.db.live(), flat, pair_map(ps, i + 1)));
                assert(t.written() =~= Set::new(|x: (int, Seq<u8>)| x.0 == flat && pair_keys(ps, i + 1).contains(x.1)));
            }
            i += 1;
        }
        proof {
            let ps = pair_views(pairs@);
            lemma_pair_map_complete(ps, sm);
            assert(t.current() =~~= with_staged(self.db.live(), flat, sm));
            assert(t.written() =~= Set::new(|x: (int, Seq<u8>)| x.0 == flat && sm.contains_key(x.1)));
        }
        self.pending = Some(t);
        self.phase = Phase::Committed;
        Ok(())
    }

    /// Merges the committed leaves into the live store; fails where no commit
    /// awaits merging.
    pub fn apply_changes(&mut self) -> (r: Result<(), CommitmentError>)
        requires
            old(self).wf(),
        ensures
            final(self).wf(),
            final(self).flat_column() == old(self).flat_column(),
            final(self).snapshots() == old(self).snapshots(),
            old(self).phase() == Phase::Committed ==> r is Ok && final(self).phase() == Phase::Merged
                && final(self).live() == with_staged(old(self).live(), old(self).flat_column(), old(self).staged())
                && final(self).staged() == old(self).staged(),
            old(self).phase() != Phase::Committed ==> r == Err::<(), CommitmentError>(
                CommitmentError::InvariantViolation,
            ) && final(self).phase() == old(self).phase() && final(self).live() == old(self).live()
                && final(self).staged() == old(self).staged(),
    {
        let t = self.pending.take();
        match t {
            Some(t) => {
                let ghost live0 = self.db.live();
                let ghost flat = self.db.mapping().flat as int;
                let ghost sm = self.staged@;
                proof {
                    assert(!crate::bonsai_db::conflicts(self.db.log(), t.mark(), t.written()));
                }
                let _ = self.db.merge(t);
                proof {
                    assert(self.db.live() =~~= with_staged(live0, flat, sm));
                }
                self.phase = Phase::Merged;
                Ok(())
            },
            None => Err(CommitmentError::InvariantViolation),
        }
    }

    /// The merged value of the leaf `key` of the trie `identifier`; fails
    /// where the stored bytes are not a field element.
    pub fn get(&self, identifier: &Felt, key: &Felt) -> (r: Result<Option<Felt>, CommitmentError>)
        requires
            self.wf(),
        ensures
            !self.committed().contains_key(leaf_key(identifier@, key@)) ==> r matches Ok(None),
            self.committed().contains_key(leaf_key(identifier@, key@)) ==> {
                let b = self.committed()[leaf_key(identifier@, key@)];
                &&& crate::felt::in_field(b) ==> (r matches Ok(Some(f)) && f@ == b)
                &&& !crate::felt::in_field(b) ==> r == Err::<Option<Felt>, CommitmentError>(
                    CommitmentError::OutOfRange,
                )
            },
    {
        let k = make_leaf_key(identifier, key);
        let got = self.db.get(&DatabaseKey::Flat(k));
        match got {
            Ok(Some(bytes)) => {
                if bytes.len() != 32 {
                    return Err(CommitmentError::OutOfRange);
                }
                let mut arr = [0u8; 32];
                let mut i: usize = 0;
                while i < 32
                    invariant
                        0 <= i <= 32,
                        bytes@.len() == 32,
                        forall|j: int| 0 <= j < i ==> arr@[j] == bytes@[j],
                    decreases 32 - i,
                {
                    arr[i] = bytes[i];
                    i += 1;
                }
                assert(arr@ =~= bytes@);
                match Felt::from_bytes_be(arr) {
                    Some(f) => Ok(Some(f)),
                    None => Err(CommitmentError::OutOfRange),
                }
            },
            _ => Ok(None),
        }
    }
}

/// The map of the first `n` pairs.
pub open spec fn pair_map(s: Seq<(Seq<u8>, Seq<u8>)>, n: int) -> Map<Seq<u8>, Seq<u8>>
    decreases n,
{
    if n <= 0 {
        Map::empty()
    } else {
        pair_map(s, n - 1).insert(s[n - 1].0, s[n - 1].1)
    }
}

/// The keys of the first `n` pairs.
pub open spec fn pair_keys(s: Seq<(Seq<u8>, Seq<u8>)>, n: int) -> Set<Seq<u8>> {
    pair_map(s, n).dom()
}

/// The leaves that `updates` stage in the trie `identifier`, a later one
/// for a key overriding an earlier one.
pub open spec fn staged_updates(identifier: Seq<u8>, updates: Seq<(Felt, Felt)>) -> Map<Seq<u8>, Seq<u8>>
    decreases updates.len(),
{
    if updates.len() == 0 {
        Map::empty()
    } else {
        staged_updates(identifier, updates.drop_last()).insert(
            leaf_key(identifier, updates.last().0@),
            updates.last().1@,
        )
    }
}

/// A list that holds a map exactly gives that map.
proof fn lemma_pair_map_complete(s: Seq<(Seq<u8>, Seq<u8>)>, m: Map<Seq<u8>, Seq<u8>>)
    requires
        lists_exactly(s, m),
    ensures
        pair_map(s, s.len() as int) == m,
{
    lemma_pair_map_prefix(s, m, s.len() as int);
    assert forall|k: Seq<u8>| m.contains_key(k) implies pair_map(s, s.len() as int).contains_key(k) by {
        let i = choose|i: int| 0 <= i < s.len() && s[i].0 == k;
    }
    assert(pair_map(s, s.len() as int) =~= m);
}

/// The first `n` pairs of a list that holds `m` exactly give `m` on their
/// keys.
proof fn lemma_pair_map_prefix(s: Seq<(Seq<u8>, Seq<u8>)>, m: Map<Seq<u8>, Seq<u8>>, n: int)
    requires
        lists_exactly(s, m),
        0 <= n <= s.len(),
    ensures
        forall|k: Seq<u8>| #[trigger] pair_map(s, n).contains_key(k) <==> exists|i: int| 0 <= i < n && s[i].0 == k,
        forall|k: Seq<u8>| #[trigger] pair_map(s, n).contains_key(k) ==> m.contains_key(k) && pair_map(s, n)[k] == m[k],
    decreases n,
{
    if n > 0 {
        lemma_pair_map_prefix(s, m, n - 1);
        assert(m.contains_key(s[n - 1].0) && m[s[n - 1].0] == s[n - 1].1);
        assert(pair_map(s, n) == pair_map(s, n - 1).insert(s[n - 1].0, s[n - 1].1));
        assert forall|k: Seq<u8>| #[trigger] pair_map(s, n).contains_key(k) implies m.contains_key(k)
            && pair_map(s, n)[k] == m[k] by {
            if k != s[n - 1].0 {
                assert(pair_map(s, n - 1).contains_key(k));
            }
        }
        assert forall|k: Seq<u8>| #[trigger] pair_map(s, n).contains_key(k) <==> exists|i: int| 0 <= i < n && s[i].0 == k by {
            if pair_map(s, n).contains_key(k) && k != s[n - 1].0 {
                assert(pair_map(s, n - 1).contains_key(k));
            }
            if exists|i: int| 0 <= i < n && s[i].0 == k {
                let i = choose|i: int| 0 <= i < n && s[i].0 == k;
                if i < n - 1 {
                    assert(pair_map(s, n - 1).contains_key(k));
                }
            }
        }
    }
}

} // verus!
