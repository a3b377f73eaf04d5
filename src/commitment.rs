//! The commitment engine: per-contract leaf hashes, class leaves, and the
//! state root composed from the two trie roots.

use vstd::prelude::*;
use crate::felt::{
    pedersen, pedersen_of, poseidon_many, poseidon_many_of, poseidon_pair, poseidon_pair_of, zero_bytes,
    felt_views, Felt,
};
use crate::felt_map::FeltMap;

verus! {

/// Why a commitment could not be computed.
#[derive(Clone, Copy, Debug, PartialEq, Eq, Structural)]
pub enum CommitmentError {
    /// The inputs break an invariant of the chain state, such as a touched
    /// contract whose class hash is recorded nowhere.
    InvariantViolation,
    /// Bytes that should hold a field element do not.
    OutOfRange,
}

/// The bytes of the field element that spells `STARKNET_STATE_V0`.
pub open spec fn state_prefix_bytes() -> Seq<u8> {
    Seq::new(15, |i: int| 0u8) + seq![83u8, 84, 65, 82, 75, 78, 69, 84, 95, 83, 84, 65, 84, 69, 95, 86, 48]
}

/// The bytes of the field element that spells `CONTRACT_CLASS_LEAF_V0`.
pub open spec fn class_leaf_prefix_bytes() -> Seq<u8> {
    Seq::new(10, |i: int| 0u8) + seq![
        67u8, 79, 78, 84, 82, 65, 67, 84, 95, 67, 76, 65, 83, 83, 95, 76, 69, 65, 70, 95, 86, 48,
    ]
}

/// The bytes of the field element one.
pub open spec fn one_bytes() -> Seq<u8> {
    Seq::new(31, |i: int| 0u8).push(1u8)
}

/// The leaf of a contract in the contracts trie.
pub open spec fn leaf_hash_of(class_hash: Seq<u8>, storage_root: Seq<u8>, nonce: Seq<u8>) -> Seq<u8> {
    pedersen_of(pedersen_of(pedersen_of(class_hash, storage_root), nonce), zero_bytes())
}

/// The leaf of a class in the classes trie.
pub open spec fn class_leaf_of(compiled_class_hash: Seq<u8>) -> Seq<u8> {
    poseidon_pair_of(class_leaf_prefix_bytes(), compiled_class_hash)
}

/// The state root: the contracts root alone while the classes root is zero,
/// else the Poseidon hash of the prefix and both roots.
pub open spec fn state_root_of(contracts_root: Seq<u8>, classes_root: Seq<u8>) -> Seq<u8> {
    if classes_root == zero_bytes() {
        contracts_root
    } else {
        poseidon_many_of(seq![state_prefix_bytes(), contracts_root, classes_root])
    }
}

/// The field element that spells `STARKNET_STATE_V0`.
pub fn starknet_state_prefix() -> (r: Felt)
    ensures
        r@ == state_prefix_bytes(),
{
    let b: [u8; 32] = [
        0, 0, 0, 0, 0, 0, 0, 0, 0, 0, 0, 0, 0, 0, 0, 83, 84, 65, 82, 75, 78, 69, 84, 95, 83, 84, 65, 84, 69, 95,
        86, 48,
    ];
    assert(b@ =~= state_prefix_bytes());
    Felt::from_bytes_with_leading_zero(b)
}

/// The field element that spells `CONTRACT_CLASS_LEAF_V0`.
pub fn contract_class_leaf_version() -> (r: Felt)
    ensures
        r@ == class_leaf_prefix_bytes(),
{
    let b: [u8; 32] = [
        0, 0, 0, 0, 0, 0, 0, 0, 0, 0, 67, 79, 78, 84, 82, 65, 67, 84, 95, 67, 76, 65, 83, 83, 95, 76, 69, 65, 70,
        95, 86, 48,
    ];
    assert(b@ =~= class_leaf_prefix_bytes());
    Felt::from_bytes_with_leading_zero(b)
}

/// The state commitment from the roots of the contracts and classes tries.
pub fn calculate_state_root(contracts_trie_root: &Felt, classes_trie_root: &Felt) -> (r: Felt)
    ensures
        r@ == state_root_of(contracts_trie_root@, classes_trie_root@),
{
    if classes_trie_root.is_zero() {
        *contracts_trie_root
    } else {
        let mut v: Vec<Felt> = Vec::new();
        v.push(starknet_state_prefix());
        v.push(*contracts_trie_root);
        v.push(*classes_trie_root);
        assert(felt_views(v@) =~= seq![state_prefix_bytes(), contracts_trie_root@, classes_trie_root@]);
        poseidon_many(&v)
    }
}

/// The leaf of a contract: `pedersen(pedersen(pedersen(class_hash,
/// storage_root), nonce), 0)`.
pub fn contract_state_leaf_hash(class_hash: &Felt, storage_root: &Felt, nonce: &Felt) -> (r: Felt)
    ensures
        r@ == leaf_hash_of(class_hash@, storage_root@, nonce@),
{
    let h = pedersen(class_hash, storage_root);
    let h = pedersen(&h, nonce);
    let z = Felt::zero();
    pedersen(&h, &z)
}

/// The leaf of a class: the Poseidon hash of the class-leaf version and its
/// compiled class hash.
pub fn class_leaf_hash(compiled_class_hash: &Felt) -> (r: Felt)
    ensures
        r@ == class_leaf_of(compiled_class_hash@),
{
    let v = contract_class_leaf_version();
    poseidon_pair(&v, compiled_class_hash)
}

/// The views of a map's field-element values.
pub open spec fn felt_values(m: Map<Seq<u8>, Felt>) -> Map<Seq<u8>, Seq<u8>> {
    m.map_values(|f: Felt| f@)
}

/// The changes of one block, as plain maps of field-element bytes.
pub ghost struct CommitmentStateDiffView {
    pub class_hashes: Map<Seq<u8>, Seq<u8>>,
    pub nonces: Map<Seq<u8>, Seq<u8>>,
    pub storage: Map<Seq<u8>, Map<Seq<u8>, Seq<u8>>>,
    pub compiled_class_hashes: Map<Seq<u8>, Seq<u8>>,
}

/// The changes of one block: class hashes of deployed contracts, nonces,
/// storage writes by contract, and compiled class hashes of declared classes.
pub struct CommitmentStateDiff {
    pub address_to_class_hash: FeltMap<Felt>,
    pub address_to_nonce: FeltMap<Felt>,
    pub storage_updates: FeltMap<FeltMap<Felt>>,
    pub class_hash_to_compiled_class_hash: FeltMap<Felt>,
}

impl View for CommitmentStateDiff {
    type V = CommitmentStateDiffView;

    open spec fn view(&self) -> CommitmentStateDiffView {
        CommitmentStateDiffView {
            class_hashes: felt_values(self.address_to_class_hash@),
            nonces: felt_values(self.address_to_nonce@),
            storage: self.storage_updates@.map_values(|m: FeltMap<Felt>| felt_values(m@)),
            compiled_class_hashes: felt_values(self.class_hash_to_compiled_class_hash@),
        }
    }
}

impl CommitmentStateDiff {
    /// Every map, the inner storage maps included, is well formed.
    pub open spec fn wf(&self) -> bool {
        &&& self.address_to_class_hash.wf()
        &&& self.address_to_nonce.wf()
        &&& self.storage_updates.wf()
        &&& self.class_hash_to_compiled_class_hash.wf()
        &&& forall|a: Seq<u8>| #[trigger] self.storage_updates@.contains_key(a) ==> self.storage_updates@[a].wf()
    }
}

/// The contracts whose leaf a diff changes: those with storage writes, a new
/// class hash or a new nonce.
pub open spec fn touched(d: CommitmentStateDiffView) -> Set<Seq<u8>> {
    d.storage.dom() + d.class_hashes.dom() + d.nonces.dom()
}

/// The class hash of a contract: the diff's, else the one recorded before.
pub open spec fn resolved_class(d: CommitmentStateDiffView, previous: Map<Seq<u8>, Seq<u8>>, a: Seq<u8>) -> Option<
    Seq<u8>,
> {
    if d.class_hashes.contains_key(a) {
        Some(d.class_hashes[a])
    } else if previous.contains_key(a) {
        Some(previous[a])
    } else {
        None
    }
}

/// The nonce of a contract after the diff: its new one, else zero.
pub open spec fn nonce_of(d: CommitmentStateDiffView, a: Seq<u8>) -> Seq<u8> {
    if d.nonces.contains_key(a) {
        d.nonces[a]
    } else {
        zero_bytes()
    }
}

/// Whether a contract's leaf can be computed: its storage root is given and
/// its class hash is known.
pub open spec fn leaf_defined(
    d: CommitmentStateDiffView,
    roots: Map<Seq<u8>, Seq<u8>>,
    previous: Map<Seq<u8>, Seq<u8>>,
    a: Seq<u8>,
) -> bool {
    roots.contains_key(a) && resolved_class(d, previous, a).is_some()
}

/// The leaf of contract `a`.
pub open spec fn leaf_of(
    d: CommitmentStateDiffView,
    roots: Map<Seq<u8>, Seq<u8>>,
    previous: Map<Seq<u8>, Seq<u8>>,
    a: Seq<u8>,
) -> Seq<u8> {
    leaf_hash_of(resolved_class(d, previous, a).unwrap(), roots[a], nonce_of(d, a))
}

/// The leaves of every touched contract.
pub open spec fn contract_leaf_map(
    d: CommitmentStateDiffView,
    roots: Map<Seq<u8>, Seq<u8>>,
    previous: Map<Seq<u8>, Seq<u8>>,
) -> Map<Seq<u8>, Seq<u8>> {
    Map::new(|a: Seq<u8>| touched(d).contains(a), |a: Seq<u8>| leaf_of(d, roots, previous, a))
}

/// The leaves of every declared class.
pub open spec fn class_leaf_map(d: CommitmentStateDiffView) -> Map<Seq<u8>, Seq<u8>> {
    d.compiled_class_hashes.map_values(|c: Seq<u8>| class_leaf_of(c))
}

/// The class hash of `contract_address`: the diff's where it has one, else
/// `previous`, the class hash recorded for it before this block; with
/// neither, the state is inconsistent.
pub fn class_hash(csd: &CommitmentStateDiff, contract_address: &Felt, previous: Option<Felt>) -> (r: Result<
    Felt,
    CommitmentError,
>)
    requires
        csd.wf(),
    ensures
        csd@.class_hashes.contains_key(contract_address@) ==> (r matches Ok(h) && h@
            == csd@.class_hashes[contract_address@]),
        !csd@.class_hashes.contains_key(contract_address@) ==> match previous {
            Some(p) => r matches Ok(h) && h@ == p@,
            None => r == Err::<Felt, CommitmentError>(CommitmentError::InvariantViolation),
        },
{
    match csd.address_to_class_hash.get(contract_address) {
        Some(h) => Ok(*h),
        None => match previous {
            Some(p) => Ok(p),
            None => Err(CommitmentError::InvariantViolation),
        },
    }
}

/// The leaf of one touched contract, or an invariant violation where its
/// storage root or class hash is missing.
fn leaf_for(
    csd: &CommitmentStateDiff,
    contract_address: &Felt,
    storage_roots: &FeltMap<Felt>,
    previous_class_hashes: &FeltMap<Felt>,
) -> (r: Result<Felt, CommitmentError>)
    requires
        csd.wf(),
        storage_roots.wf(),
        previous_class_hashes.wf(),
    ensures
        leaf_defined(csd@, felt_values(storage_roots@), felt_values(previous_class_hashes@), contract_address@)
            ==> (r matches Ok(h) && h@ == leaf_of(
            csd@,
            felt_values(storage_roots@),
            felt_values(previous_class_hashes@),
            contract_address@,
        )),
        !leaf_defined(csd@, felt_values(storage_roots@), felt_values(previous_class_hashes@), contract_address@)
            ==> r == Err::<Felt, CommitmentError>(CommitmentError::InvariantViolation),
{
    let root = match storage_roots.get(contract_address) {
        Some(s) => *s,
        None => {
            return Err(CommitmentError::InvariantViolation);
        },
    };
    let previous = match previous_class_hashes.get(contract_address) {
        Some(p) => Some(*p),
        None => None,
    };
    let class = class_hash(csd, contract_address, previous)?;
    let nonce = match csd.address_to_nonce.get(contract_address) {
        Some(n) => *n,
        None => Felt::zero(),
    };
    Ok(contract_state_leaf_hash(&class, &root, &nonce))
}

/// Adds to `out` the leaf of each key of `src`, in `src`'s order.
fn add_leaves<V>(
    src: &FeltMap<V>,
    csd: &CommitmentStateDiff,
    storage_roots: &FeltMap<Felt>,
    previous_class_hashes: &FeltMap<Felt>,
    out: &mut FeltMap<Felt>,
) -> (r: Result<(), CommitmentError>)
    requires
        src.wf(),
        csd.wf(),
        storage_roots.wf(),
        previous_class_hashes.wf(),
        old(out).wf(),
        forall|a: Seq<u8>| #[trigger] old(out)@.contains_key(a) ==> old(out)@[a]@ == leaf_of(
            csd@,
            felt_values(storage_roots@),
            felt_values(previous_class_hashes@),
            a,
        ),
    ensures
        final(out).wf(),
        r is Ok <==> forall|a: Seq<u8>| #[trigger] src@.contains_key(a) ==> leaf_defined(
            csd@,
            felt_values(storage_roots@),
            felt_values(previous_class_hashes@),
            a,
        ),
        r is Err ==> r->Err_0 == CommitmentError::InvariantViolation,
        r is Ok ==> final(out)@.dom() == old(out)@.dom() + src@.dom(),
        forall|a: Seq<u8>| #[trigger] final(out)@.contains_key(a) ==> final(out)@[a]@ == leaf_of(
            csd@,
            felt_values(storage_roots@),
            felt_values(previous_class_hashes@),
            a,
        ),
{
    let ghost roots = felt_values(storage_roots@);
    let ghost prev = felt_values(previous_class_hashes@);
    let ghost d0 = out@.dom();
    proof {
        src.lemma_key_order();
    }
    let n = src.len();
    let mut i: usize = 0;
    while i < n
        invariant
            src.wf(),
            csd.wf(),
            storage_roots.wf(),
            previous_class_hashes.wf(),
            out.wf(),
            n == src.key_order().len(),
            roots == felt_values(storage_roots@),
            prev == felt_values(previous_class_hashes@),
            forall|k: Seq<u8>| src@.contains_key(k) <==> src.key_order().contains(k),
            0 <= i <= n,
            out@.dom() == d0 + src.key_order().subrange(0, i as int).to_set(),
            forall|j: int| 0 <= j < i ==> leaf_defined(csd@, roots, prev, #[trigger] src.key_order()[j]),
            forall|a: Seq<u8>| #[trigger] out@.contains_key(a) ==> out@[a]@ == leaf_of(csd@, roots, prev, a),
        decreases n - i,
    {
        let a = src.key_at(i);
        let leaf = leaf_for(csd, &a, storage_roots, previous_class_hashes);
        match leaf {
            Ok(h) => {
                out.insert(a, h);
                proof {
                    let ko = src.key_order();
                    assert(ko.subrange(0, i + 1) =~= ko.subrange(0, i as int).push(ko[i as int]));
                    ko.subrange(0, i as int).lemma_push_to_set_commute(ko[i as int]);
                    assert(out@.dom() =~= d0 + ko.subrange(0, i + 1).to_set());
                }
            },
            Err(e) => {
                proof {
                    assert(src@.contains_key(a@));
                    assert(!leaf_defined(csd@, roots, prev, a@));
                }
                return Err(e);
            },
        }
        i += 1;
    }
    proof {
        let ko = src.key_order();
        assert(ko.subrange(0, n as int) =~= ko);
        assert(ko.to_set() =~= src@.dom());
        assert forall|a: Seq<u8>| #[trigger] src@.contains_key(a) implies leaf_defined(csd@, roots, prev, a) by {
            let j = choose|j: int| 0 <= j < ko.len() && ko[j] == a;
        }
    }
    Ok(())
}

/// The leaves of every contract that the diff touches, by address, from the
/// storage root of each after this block's writes and the class hash of each
/// recorded before the block; an invariant violation where a touched
/// contract has no storage root given or no known class hash.
pub fn contract_leaves(
    csd: &CommitmentStateDiff,
    storage_roots: &FeltMap<Felt>,
    previous_class_hashes: &FeltMap<Felt>,
) -> (r: Result<FeltMap<Felt>, CommitmentError>)
    requires
        csd.wf(),
        storage_roots.wf(),
        previous_class_hashes.wf(),
    ensures
        r is Ok <==> forall|a: Seq<u8>| #[trigger] touched(csd@).contains(a) ==> leaf_defined(
            csd@,
            felt_values(storage_roots@),
            felt_values(previous_class_hashes@),
            a,
        ),
        r is Err ==> r->Err_0 == CommitmentError::InvariantViolation,
        r matches Ok(m) ==> m.wf() && felt_values(m@) == contract_leaf_map(
            csd@,
            felt_values(storage_roots@),
            felt_values(previous_class_hashes@),
        ),
{
    let ghost roots = felt_values(storage_roots@);
    let ghost prev = felt_values(previous_class_hashes@);
    let mut out: FeltMap<Felt> = FeltMap::new();
    let r1 = add_leaves(&csd.storage_updates, csd, storage_roots, previous_class_hashes, &mut out);
    if r1.is_err() {
        proof {
            let a = choose|a: Seq<u8>| #[trigger] csd.storage_updates@.contains_key(a) && !leaf_defined(csd@, roots, prev, a);
            assert(touched(csd@).contains(a));
        }
        return Err(CommitmentError::InvariantViolation);
    }
    let r2 = add_leaves(&csd.address_to_class_hash, csd, storage_roots, previous_class_hashes, &mut out);
    if r2.is_err() {
        proof {
            let a = choose|a: Seq<u8>| #[trigger] csd.address_to_class_hash@.contains_key(a) && !leaf_defined(csd@, roots, prev, a);
            assert(touched(csd@).contains(a));
        }
        return Err(CommitmentError::InvariantViolation);
    }
    let r3 = add_leaves(&csd.address_to_nonce, csd, storage_roots, previous_class_hashes, &mut out);
    if r3.is_err() {
        proof {
            let a = choose|a: Seq<u8>| #[trigger] csd.address_to_nonce@.contains_key(a) && !leaf_defined(csd@, roots, prev, a);
            assert(touched(csd@).contains(a));
        }
        return Err(CommitmentError::InvariantViolation);
    }
    proof {
        assert(out@.dom() =~= touched(csd@));
        assert(felt_values(out@) =~= contract_leaf_map(csd@, roots, prev));
        assert forall|a: Seq<u8>| #[trigger] touched(csd@).contains(a) implies leaf_defined(csd@, roots, prev, a) by {
            if csd.storage_updates@.contains_key(a) {
            } else if csd.address_to_class_hash@.contains_key(a) {
            } else {
                assert(csd.address_to_nonce@.contains_key(a));
            }
        }
    }
    Ok(out)
}

/// The leaves of every class that the diff declares, by class hash.
pub fn class_leaves(csd: &CommitmentStateDiff) -> (r: FeltMap<Felt>)
    requires
        csd.wf(),
    ensures
        r.wf(),
        felt_values(r@) == class_leaf_map(csd@),
{
    let src = &csd.class_hash_to_compiled_class_hash;
    proof {
        src.lemma_key_order();
    }
    let mut out: FeltMap<Felt> = FeltMap::new();
    let n = src.len();
    let mut i: usize = 0;
    while i < n
        invariant
            src.wf(),
            out.wf(),
            src == &csd.class_hash_to_compiled_class_hash,
            n == src.key_order().len(),
            forall|k: Seq<u8>| src@.contains_key(k) <==> src.key_order().contains(k),
            0 <= i <= n,
            out@.dom() == src.key_order().subrange(0, i as int).to_set(),
            forall|a: Seq<u8>| #[trigger] out@.contains_key(a) ==> src@.contains_key(a) && out@[a]@ == class_leaf_of(
                src@[a]@,
            ),
        decreases n - i,
    {
        let h = src.key_at(i);
        let c = src.value_at(i);
        let leaf = class_leaf_hash(c);
        out.insert(h, leaf);
        proof {
            let ko = src.key_order();
            assert(ko.subrange(0, i + 1) =~= ko.subrange(0, i as int).push(ko[i as int]));
            ko.subrange(0, i as int).lemma_push_to_set_commute(ko[i as int]);
            assert(out@.dom() =~= ko.subrange(0, i + 1).to_set());
        }
        i += 1;
    }
    proof {
        let ko = src.key_order();
        assert(ko.subrange(0, n as int) =~= ko);
        assert(ko.to_set() =~= src@.dom());
        assert(felt_values(out@) =~= class_leaf_map(csd@));
    }
    out
}

/// A contract deployed in a block.
pub struct DeployedContract {
    pub address: Felt,
    pub class_hash: Felt,
}

/// A storage write of a block.
pub struct StorageDiff {
    pub key: Felt,
    pub value: Felt,
}

/// A class declared in a block.
pub struct DeclaredClass {
    pub class_hash: Felt,
    pub compiled_class_hash: Felt,
}

/// The state changes of a block as fetched: lists, where a later entry for a
/// key overrides an earlier one.
pub struct StateDiff {
    pub deployed_contracts: Vec<DeployedContract>,
    pub nonces: Vec<(Felt, Felt)>,
    pub storage_diffs: Vec<(Felt, Vec<StorageDiff>)>,
    pub declared_classes: Vec<DeclaredClass>,
}

/// The map that a list of pairs gives when inserted in order.
pub open spec fn fold_pairs(s: Seq<(Seq<u8>, Seq<u8>)>) -> Map<Seq<u8>, Seq<u8>>
    decreases s.len(),
{
    if s.len() == 0 {
        Map::empty()
    } else {
        fold_pairs(s.drop_last()).insert(s.last().0, s.last().1)
    }
}

/// A deployed contract's address and class hash; the system contract at
/// address one has class hash zero.
pub open spec fn deployed_pair(d: DeployedContract) -> (Seq<u8>, Seq<u8>) {
    (d.address@, if d.address@ == one_bytes() { zero_bytes() } else { d.class_hash@ })
}

/// A contract's address and nonce.
pub open spec fn nonce_pair(n: (Felt, Felt)) -> (Seq<u8>, Seq<u8>) {
    (n.0@, n.1@)
}

/// A storage write's key and value.
pub open spec fn storage_pair(e: StorageDiff) -> (Seq<u8>, Seq<u8>) {
    (e.key@, e.value@)
}

/// A declared class's hash and compiled class hash.
pub open spec fn declared_pair(c: DeclaredClass) -> (Seq<u8>, Seq<u8>) {
    (c.class_hash@, c.compiled_class_hash@)
}

/// The storage writes of a block by contract; a later list for a contract
/// replaces an earlier one.
pub open spec fn fold_storage(s: Seq<(Felt, Vec<StorageDiff>)>) -> Map<Seq<u8>, Map<Seq<u8>, Seq<u8>>>
    decreases s.len(),
{
    if s.len() == 0 {
        Map::empty()
    } else {
        fold_storage(s.drop_last()).insert(
            s.last().0@,
            fold_pairs(s.last().1@.map_values(|e: StorageDiff| storage_pair(e))),
        )
    }
}

/// The commitment diff of a fetched state diff.
pub open spec fn commitment_diff_of(d: StateDiff) -> CommitmentStateDiffView {
    CommitmentStateDiffView {
        class_hashes: fold_pairs(d.deployed_contracts@.map_values(|c: DeployedContract| deployed_pair(c))),
        nonces: fold_pairs(d.nonces@.map_values(|n: (Felt, Felt)| nonce_pair(n))),
        storage: fold_storage(d.storage_diffs@),
        compiled_class_hashes: fold_pairs(d.declared_classes@.map_values(|c: DeclaredClass| declared_pair(c))),
    }
}

/// One more pair inserted into a map of field elements.
proof fn lemma_insert_step(m: Map<Seq<u8>, Felt>, k: Felt, v: Felt, s: Seq<(Seq<u8>, Seq<u8>)>)
    requires
        felt_values(m) == fold_pairs(s),
    ensures
        felt_values(m.insert(k@, v)) == fold_pairs(s.push((k@, v@))),
{
    assert(s.push((k@, v@)).drop_last() =~= s);
    assert(felt_values(m.insert(k@, v)) =~= felt_values(m).insert(k@, v@));
}

/// The map of a list of storage writes.
fn storage_map(entries: &Vec<StorageDiff>) -> (r: FeltMap<Felt>)
    ensures
        r.wf(),
        felt_values(r@) == fold_pairs(entries@.map_values(|e: StorageDiff| storage_pair(e))),
{
    let mut m: FeltMap<Felt> = FeltMap::new();
    let mut i: usize = 0;
    assert(felt_values(m@) =~= fold_pairs(entries@.subrange(0, 0).map_values(|e: StorageDiff| storage_pair(e))));
    while i < entries.len()
        invariant
            m.wf(),
            0 <= i <= entries@.len(),
            felt_values(m@) == fold_pairs(entries@.subrange(0, i as int).map_values(|e: StorageDiff| storage_pair(e))),
        decreases entries@.len() - i,
    {
        let e = &entries[i];
        proof {
            lemma_insert_step(m@, e.key, e.value, entries@.subrange(0, i as int).map_values(|e: StorageDiff| storage_pair(e)));
            assert(entries@[i as int] == *e);
            assert(storage_pair(entries@[i as int]) == (e.key@, e.value@));
            assert(entries@.subrange(0, i + 1).map_values(|e: StorageDiff| storage_pair(e)) =~= entries@.subrange(0, i as int).map_values(|e: StorageDiff| storage_pair(e)).push(
                (e.key@, e.value@),
            ));
        }
        m.insert(e.key, e.value);
        i += 1;
    }
    assert(entries@.subrange(0, entries@.len() as int) =~= entries@);
    m
}

/// The commitment diff of a fetched state diff: maps keyed by address and
/// by class hash, a later entry for a key overriding an earlier one, and
/// the system contract at address one given class hash zero.
pub fn build_commitment_state_diff(state_update: StateDiff) -> (r: CommitmentStateDiff)
    ensures
        r.wf(),
        r@ == commitment_diff_of(state_update),
{
    let d = &state_update;
    let one = Felt::from_u8(1);
    let zero = Felt::zero();

    let mut classes: FeltMap<Felt> = FeltMap::new();
    let mut i: usize = 0;
    assert(felt_values(classes@) =~= fold_pairs(d.deployed_contracts@.subrange(0, 0).map_values(|c: DeployedContract| deployed_pair(c))));
    while i < d.deployed_contracts.len()
        invariant
            classes.wf(),
            0 <= i <= d.deployed_contracts@.len(),
            one@ == one_bytes(),
            zero@ == zero_bytes(),
            felt_values(classes@) == fold_pairs(d.deployed_contracts@.subrange(0, i as int).map_values(|c: DeployedContract| deployed_pair(c))),
        decreases d.deployed_contracts@.len() - i,
    {
        let c = &d.deployed_contracts[i];
        let h = if crate::felt::felt_eq(&c.address, &one) {
            zero
        } else {
            c.class_hash
        };
        proof {
            lemma_insert_step(classes@, c.address, h, d.deployed_contracts@.subrange(0, i as int).map_values(|c: DeployedContract| deployed_pair(c)));
            assert(deployed_pair(d.deployed_contracts@[i as int]) == (c.address@, h@));
            assert(d.deployed_contracts@.subrange(0, i + 1).map_values(|c: DeployedContract| deployed_pair(c))
                =~= d.deployed_contracts@.subrange(0, i as int).map_values(|c: DeployedContract| deployed_pair(c)).push((c.address@, h@)));
        }
        classes.insert(c.address, h);
        i += 1;
    }
    assert(d.deployed_contracts@.subrange(0, d.deployed_contracts@.len() as int) =~= d.deployed_contracts@);

    let mut nonces: FeltMap<Felt> = FeltMap::new();
    let mut i: usize = 0;
    assert(felt_values(nonces@) =~= fold_pairs(d.nonces@.subrange(0, 0).map_values(|n: (Felt, Felt)| nonce_pair(n))));
    while i < d.nonces.len()
        invariant
            nonces.wf(),
            0 <= i <= d.nonces@.len(),
            felt_values(nonces@) == fold_pairs(d.nonces@.subrange(0, i as int).map_values(|n: (Felt, Felt)| nonce_pair(n))),
        decreases d.nonces@.len() - i,
    {
        let n = &d.nonces[i];
        proof {
            lemma_insert_step(nonces@, n.0, n.1, d.nonces@.subrange(0, i as int).map_values(|n: (Felt, Felt)| nonce_pair(n)));
            assert(nonce_pair(d.nonces@[i as int]) == (n.0@, n.1@));
            assert(d.nonces@.subrange(0, i + 1).map_values(|n: (Felt, Felt)| nonce_pair(n)) =~= d.nonces@.subrange(0, i as int).map_values(|n: (Felt, Felt)| nonce_pair(n)).push((n.0@, n.1@)));
        }
        nonces.insert(n.0, n.1);
        i += 1;
    }
    assert(d.nonces@.subrange(0, d.nonces@.len() as int) =~= d.nonces@);

    let mut storage: FeltMap<FeltMap<Felt>> = FeltMap::new();
    let mut i: usize = 0;
    assert(storage@.map_values(|m: FeltMap<Felt>| felt_values(m@)) =~= fold_storage(
        d.storage_diffs@.subrange(0, 0),
    ));
    while i < d.storage_diffs.len()
        invariant
            storage.wf(),
            0 <= i <= d.storage_diffs@.len(),
            forall|a: Seq<u8>| #[trigger] storage@.contains_key(a) ==> storage@[a].wf(),
            storage@.map_values(|m: FeltMap<Felt>| felt_values(m@)) == fold_storage(
                d.storage_diffs@.subrange(0, i as int),
            ),
        decreases d.storage_diffs@.len() - i,
    {
        let address = d.storage_diffs[i].0;
        let inner = storage_map(&d.storage_diffs[i].1);
        let ghost before = storage@;
        storage.insert(address, inner);
        proof {
            let s0 = d.storage_diffs@.subrange(0, i as int);
            let s1 = d.storage_diffs@.subrange(0, i + 1);
            assert(s1.drop_last() =~= s0);
            assert(storage@.map_values(|m: FeltMap<Felt>| felt_values(m@)) =~= fold_storage(s1));
        }
        i += 1;
    }
    assert(d.storage_diffs@.subrange(0, d.storage_diffs@.len() as int) =~= d.storage_diffs@);

    let mut compiled: FeltMap<Felt> = FeltMap::new();
    let mut i: usize = 0;
    assert(felt_values(compiled@) =~= fold_pairs(d.declared_classes@.subrange(0, 0).map_values(|c: DeclaredClass| declared_pair(c))));
    while i < d.declared_classes.len()
        invariant
            compiled.wf(),
            0 <= i <= d.declared_classes@.len(),
            felt_values(compiled@) == fold_pairs(d.declared_classes@.subrange(0, i as int).map_values(|c: DeclaredClass| declared_pair(c))),
        decreases d.declared_classes@.len() - i,
    {
        let c = &d.declared_classes[i];
        proof {
            lemma_insert_step(
                compiled@,
                c.class_hash,
                c.compiled_class_hash,
                d.declared_classes@.subrange(0, i as int).map_values(|c: DeclaredClass| declared_pair(c)),
            );
            assert(declared_pair(d.declared_classes@[i as int]) == (c.class_hash@, c.compiled_class_hash@));
            assert(d.declared_classes@.subrange(0, i + 1).map_values(|c: DeclaredClass| declared_pair(c))
                =~= d.declared_classes@.subrange(0, i as int).map_values(|c: DeclaredClass| declared_pair(c)).push(
                (c.class_hash@, c.compiled_class_hash@),
            ));
        }
        compiled.insert(c.class_hash, c.compiled_class_hash);
        i += 1;
    }
    assert(d.declared_classes@.subrange(0, d.declared_classes@.len() as int) =~= d.declared_classes@);

    let r = CommitmentStateDiff {
        address_to_class_hash: classes,
        address_to_nonce: nonces,
        storage_updates: storage,
        class_hash_to_compiled_class_hash: compiled,
    };
    assert(r@ == commitment_diff_of(state_update));
    r
}

/// Two diffs with the same contents give the same contract and class
/// leaves, whatever order their maps hold their keys in; the state root
/// depends on the two trie roots alone.
pub proof fn lemma_leaves_independent_of_order(
    a: CommitmentStateDiff,
    b: CommitmentStateDiff,
    storage_roots: Map<Seq<u8>, Seq<u8>>,
    previous_class_hashes: Map<Seq<u8>, Seq<u8>>,
)
    requires
        a@ == b@,
    ensures
        contract_leaf_map(a@, storage_roots, previous_class_hashes) == contract_leaf_map(
            b@,
            storage_roots,
            previous_class_hashes,
        ),
        class_leaf_map(a@) == class_leaf_map(b@),
        forall|k: Seq<u8>| touched(a@).contains(k) == touched(b@).contains(k),
{
}

/// Where each key occurs once in a list of pairs, the map that the list gives
/// holds exactly its pairs.
pub proof fn lemma_fold_pairs_unique(s: Seq<(Seq<u8>, Seq<u8>)>, k: Seq<u8>, v: Seq<u8>)
    requires
        forall|i: int, j: int| 0 <= i < s.len() && 0 <= j < s.len() && i != j ==> s[i].0 != s[j].0,
    ensures
        fold_pairs(s).contains_key(k) && fold_pairs(s)[k] == v <==> s.contains((k, v)),
    decreases s.len(),
{
    if s.len() > 0 {
        let t = s.drop_last();
        lemma_fold_pairs_unique(t, k, v);
        if s.contains((k, v)) && (k, v) != s.last() {
            let i = choose|i: int| 0 <= i < s.len() && s[i] == (k, v);
            assert(i < s.len() - 1);
            assert(t[i] == (k, v));
        }
        if t.contains((k, v)) {
            let i = choose|i: int| 0 <= i < t.len() && t[i] == (k, v);
            assert(s[i] == (k, v));
            assert(s.last().0 != k);
        }
        if k == s.last().0 && fold_pairs(s)[k] == v {
            assert(s[s.len() - 1] == (k, v));
        }
    }
}

/// A diff that declares no class adds no class leaf, and with the classes
/// root at zero the state root is the contracts root exactly.
pub proof fn lemma_zero_classes(d: CommitmentStateDiffView, contracts_root: Seq<u8>)
    requires
        d.compiled_class_hashes == Map::<Seq<u8>, Seq<u8>>::empty(),
    ensures
        class_leaf_map(d) == Map::<Seq<u8>, Seq<u8>>::empty(),
        state_root_of(contracts_root, zero_bytes()) == contracts_root,
{
    assert(class_leaf_map(d) =~= Map::<Seq<u8>, Seq<u8>>::empty());
}

/// Two lists of pairs that hold the same pairs, each key once, in any
/// order, give the same map.
pub proof fn lemma_fold_pairs_order_independent(s1: Seq<(Seq<u8>, Seq<u8>)>, s2: Seq<(Seq<u8>, Seq<u8>)>)
    requires
        forall|i: int, j: int| 0 <= i < s1.len() && 0 <= j < s1.len() && i != j ==> s1[i].0 != s1[j].0,
        forall|i: int, j: int| 0 <= i < s2.len() && 0 <= j < s2.len() && i != j ==> s2[i].0 != s2[j].0,
        forall|x: (Seq<u8>, Seq<u8>)| s1.contains(x) <==> s2.contains(x),
    ensures
        fold_pairs(s1) == fold_pairs(s2),
{
    assert forall|k: Seq<u8>| fold_pairs(s1).contains_key(k) <==> fold_pairs(s2).contains_key(k) by {
        if fold_pairs(s1).contains_key(k) {
            lemma_fold_pairs_unique(s1, k, fold_pairs(s1)[k]);
            lemma_fold_pairs_unique(s2, k, fold_pairs(s1)[k]);
        }
        if fold_pairs(s2).contains_key(k) {
            lemma_fold_pairs_unique(s2, k, fold_pairs(s2)[k]);
            lemma_fold_pairs_unique(s1, k, fold_pairs(s2)[k]);
        }
    }
    assert forall|k: Seq<u8>| fold_pairs(s1).contains_key(k) implies fold_pairs(s1)[k] == fold_pairs(s2)[k] by {
        lemma_fold_pairs_unique(s1, k, fold_pairs(s1)[k]);
        lemma_fold_pairs_unique(s2, k, fold_pairs(s1)[k]);
    }
    assert(fold_pairs(s1) =~= fold_pairs(s2));
}

/// A contract whose nonce the diff leaves unchanged has the leaf of nonce
/// zero: `pedersen(pedersen(pedersen(C, S), 0), 0)`.
pub proof fn lemma_leaf_without_new_nonce(
    d: CommitmentStateDiffView,
    roots: Map<Seq<u8>, Seq<u8>>,
    previous: Map<Seq<u8>, Seq<u8>>,
    a: Seq<u8>,
)
    requires
        leaf_defined(d, roots, previous, a),
        !d.nonces.contains_key(a),
    ensures
        leaf_of(d, roots, previous, a) == pedersen_of(
            pedersen_of(pedersen_of(resolved_class(d, previous, a).unwrap(), roots[a]), zero_bytes()),
            zero_bytes(),
        ),
{
}

/// Whether `a` is among the field elements of `v`.
fn contains_felt(v: &Vec<Felt>, a: &Felt) -> (r: bool)
    ensures
        r == felt_views(v@).contains(a@),
{
    let mut i: usize = 0;
    while i < v.len()
        invariant
            0 <= i <= v@.len(),
            forall|j: int| 0 <= j < i ==> (#[trigger] v@[j])@ != a@,
        decreases v@.len() - i,
    {
        if crate::felt::felt_eq(&v[i], a) {
            assert(felt_views(v@)[i as int] == a@);
            return true;
        }
        i += 1;
    }
    proof {
        if felt_views(v@).contains(a@) {
            let j = choose|j: int| 0 <= j < felt_views(v@).len() && felt_views(v@)[j] == a@;
            assert(v@[j]@ == a@);
        }
    }
    false
}

/// Appends to `out` each key of `src` that `exclude` lacks and `out` does not
/// hold yet.
fn add_keys_outside<V, W>(src: &FeltMap<V>, exclude: &FeltMap<W>, out: &mut Vec<Felt>)
    requires
        src.wf(),
        exclude.wf(),
        felt_views(old(out)@).no_duplicates(),
    ensures
        felt_views(final(out)@).no_duplicates(),
        forall|a: Seq<u8>| felt_views(final(out)@).contains(a) <==> (felt_views(old(out)@).contains(a) || (
        src@.contains_key(a) && !exclude@.contains_key(a))),
{
    proof {
        src.lemma_key_order();
    }
    let ghost o0 = felt_views(out@);
    let n = src.len();
    let mut i: usize = 0;
    while i < n
        invariant
            src.wf(),
            exclude.wf(),
            n == src.key_order().len(),
            forall|k: Seq<u8>| src@.contains_key(k) <==> src.key_order().contains(k),
            0 <= i <= n,
            o0 == felt_views(old(out)@),
            felt_views(out@).no_duplicates(),
            forall|a: Seq<u8>| felt_views(out@).contains(a) <==> (o0.contains(a) || (
            src.key_order().subrange(0, i as int).contains(a) && !exclude@.contains_key(a))),
        decreases n - i,
    {
        let a = src.key_at(i);
        let ghost before = felt_views(out@);
        let excluded = exclude.contains_key(&a);
        let present = contains_felt(out, &a);
        if !excluded && !present {
            out.push(a);
            assert(felt_views(out@) =~= before.push(a@));
            assert forall|x: Seq<u8>| felt_views(out@).contains(x) <==> (before.contains(x) || x == a@) by {
                if felt_views(out@).contains(x) {
                    let j = choose|j: int| 0 <= j < felt_views(out@).len() && felt_views(out@)[j] == x;
                    if j < before.len() {
                        assert(before[j] == x);
                    }
                }
                if before.contains(x) {
                    let j = choose|j: int| 0 <= j < before.len() && before[j] == x;
                    assert(felt_views(out@)[j] == x);
                }
                if x == a@ {
                    assert(felt_views(out@)[before.len() as int] == x);
                }
            }
        }
        proof {
            let ko = src.key_order();
            let s0 = ko.subrange(0, i as int);
            let s1 = ko.subrange(0, i + 1);
            assert forall|x: Seq<u8>| s1.contains(x) <==> (s0.contains(x) || x == ko[i as int]) by {
                if s1.contains(x) {
                    let j = choose|j: int| 0 <= j < s1.len() && s1[j] == x;
                    if j < i {
                        assert(s0[j] == x);
                    }
                }
                if s0.contains(x) {
                    let j = choose|j: int| 0 <= j < s0.len() && s0[j] == x;
                    assert(s1[j] == x);
                }
                if x == ko[i as int] {
                    assert(s1[i as int] == x);
                }
            }
            assert forall|x: Seq<u8>| felt_views(out@).contains(x) <==> (o0.contains(x) || (s1.contains(x)
                && !exclude@.contains_key(x))) by {
                assert(before.contains(x) == (o0.contains(x) || (s0.contains(x) && !exclude@.contains_key(x))));
                assert(s1.contains(x) == (s0.contains(x) || x == ko[i as int]));
                assert(ko[i as int] == a@);
                if !excluded && !present {
                    assert(felt_views(out@).contains(x) <==> (before.contains(x) || x == a@));
                } else {
                    assert(felt_views(out@) == before);
                }
            }
        }
        i += 1;
    }
    proof {
        let ko = src.key_order();
        assert(ko.subrange(0, n as int) =~= ko);
        assert forall|x: Seq<u8>| felt_views(out@).contains(x) <==> (o0.contains(x) || (src@.contains_key(x)
            && !exclude@.contains_key(x))) by {
            assert(felt_views(out@).contains(x) == (o0.contains(x) || (ko.subrange(0, n as int).contains(x)
                && !exclude@.contains_key(x))));
            assert(src@.contains_key(x) == ko.contains(x));
        }
    }
}

/// Each contract that the diff touches and that `exclude` has no entry for,
/// once: the contracts whose storage root, or whose earlier class hash, must
/// be looked up outside the diff.
pub fn touched_outside<W>(csd: &CommitmentStateDiff, exclude: &FeltMap<W>) -> (r: Vec<Felt>)
    requires
        csd.wf(),
        exclude.wf(),
    ensures
        felt_views(r@).no_duplicates(),
        forall|a: Seq<u8>| felt_views(r@).contains(a) <==> (touched(csd@).contains(a) && !exclude@.contains_key(a)),
{
    let mut out: Vec<Felt> = Vec::new();
    assert(felt_views(out@) =~= Seq::<Seq<u8>>::empty());
    add_keys_outside(&csd.storage_updates, exclude, &mut out);
    add_keys_outside(&csd.address_to_class_hash, exclude, &mut out);
    add_keys_outside(&csd.address_to_nonce, exclude, &mut out);
    out
}

} // verus!