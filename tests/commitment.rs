use deoxys_state::commitment::{
    build_commitment_state_diff, calculate_state_root, class_hash, class_leaf_hash, class_leaves,
    contract_leaves, contract_state_leaf_hash, starknet_state_prefix, CommitmentError, DeclaredClass,
    DeployedContract, StateDiff, StorageDiff,
};
use deoxys_state::felt::{pedersen, poseidon_many, poseidon_pair, Felt};
use deoxys_state::felt_map::FeltMap;
use starknet_ff::FieldElement;

fn felt(hex: &str) -> Felt {
    let fe = FieldElement::from_hex_be(hex).unwrap();
    Felt::from_bytes_be(fe.to_bytes_be()).unwrap()
}

fn fe(f: &Felt) -> FieldElement {
    FieldElement::from_bytes_be(&f.to_bytes_be()).unwrap()
}

fn empty_diff() -> StateDiff {
    StateDiff { deployed_contracts: vec![], nonces: vec![], storage_diffs: vec![], declared_classes: vec![] }
}

#[test]
fn pedersen_known_answer() {
    let a = felt("0x03d937c035c878245caf64531a5756109c53068da139362728feb561405371cb");
    let b = felt("0x0208a0a10250e382e1e4bbe2880906c2791bf6275695e02fbbc6aeff9cd8b31a");
    let h = felt("0x030e480bed5fe53fa909cc0f8c4d99b8f9f2c016be4c41e13a4848797979c662");
    assert_eq!(pedersen(&a, &b), h);
}

#[test]
fn poseidon_known_answer() {
    let a = felt("0xb662f9017fa7956fd70e26129b1833e10ad000fd37b4d9f4e0ce6884b7bbe");
    let b = felt("0x1fe356bf76102cdae1bfbdc173602ead228b12904c00dad9cf16e035468bea");
    let h = felt("0x75540825a6ecc5dc7d7c2f5f868164182742227f1367d66c43ee51ec7937a81");
    assert_eq!(poseidon_pair(&a, &b), h);
}

#[test]
fn poseidon_many_known_answer() {
    let v = vec![
        felt("0x9bf52404586087391c5fbb42538692e7ca2149bac13c145ae4230a51a6fc47"),
        felt("0x40304159ee9d2d611120fbd7c7fb8020cc8f7a599bfa108e0e085222b862c0"),
        felt("0x46286e4f3c450761d960d6a151a9c0988f9e16f8a48d4c0a85817c009f806a"),
    ];
    let h = felt("0x1ec38b38dc88bac7b0ed6ff6326f975a06a59ac601b417745fd412a5d38e4f7");
    assert_eq!(poseidon_many(&v), h);
}

#[test]
fn felt_range_is_checked() {
    let mut p = [0u8; 32];
    p[0] = 0x08;
    p[7] = 0x11;
    p[31] = 0x01;
    assert!(Felt::from_bytes_be(p).is_none());
    p[31] = 0x00;
    assert!(Felt::from_bytes_be(p).is_some());
    assert!(Felt::from_bytes_be([0xff; 32]).is_none());
    assert!(Felt::zero().is_zero());
    assert!(!Felt::from_u8(1).is_zero());
    assert_eq!(Felt::from_u8(7).to_bytes_be()[31], 7);
    assert_eq!(Felt::from_u8(7).to_vec().len(), 32);
}

#[test]
fn leaf_hash_composition() {
    let c = felt("0x03d937c035c878245caf64531a5756109c53068da139362728feb561405371cb");
    let s = felt("0x0208a0a10250e382e1e4bbe2880906c2791bf6275695e02fbbc6aeff9cd8b31a");
    let n = felt("0x5");
    let level1 = felt("0x030e480bed5fe53fa909cc0f8c4d99b8f9f2c016be4c41e13a4848797979c662");
    let expected = starknet_crypto::pedersen_hash(
        &starknet_crypto::pedersen_hash(&fe(&level1), &fe(&n)),
        &FieldElement::ZERO,
    );
    let leaf = contract_state_leaf_hash(&c, &s, &n);
    assert_eq!(fe(&leaf), expected);
    assert_ne!(leaf, c);
}

#[test]
fn class_leaf_uses_the_version_prefix() {
    let compiled = felt("0x1234");
    let version = FieldElement::from_byte_slice_be(b"CONTRACT_CLASS_LEAF_V0").unwrap();
    let expected = starknet_crypto::poseidon_hash(version, fe(&compiled));
    assert_eq!(fe(&class_leaf_hash(&compiled)), expected);
}

#[test]
fn state_root_with_zero_classes_root_is_the_contracts_root() {
    let c = felt("0x1234");
    assert_eq!(calculate_state_root(&c, &Felt::zero()), c);
}

#[test]
fn state_root_hashes_both_roots() {
    let c = felt("0x1234");
    let k = felt("0x5678");
    let prefix = FieldElement::from_byte_slice_be(b"STARKNET_STATE_V0").unwrap();
    assert_eq!(fe(&starknet_state_prefix()), prefix);
    let expected = starknet_crypto::poseidon_hash_many(&[prefix, fe(&c), fe(&k)]);
    assert_eq!(fe(&calculate_state_root(&c, &k)), expected);
}

#[test]
fn build_diff_maps_and_overrides() {
    let mut d = empty_diff();
    d.deployed_contracts.push(DeployedContract { address: felt("0xa"), class_hash: felt("0xc1") });
    d.deployed_contracts.push(DeployedContract { address: felt("0x1"), class_hash: felt("0xc2") });
    d.deployed_contracts.push(DeployedContract { address: felt("0xa"), class_hash: felt("0xc3") });
    d.nonces.push((felt("0xa"), felt("0x2")));
    d.storage_diffs.push((felt("0xa"), vec![
        StorageDiff { key: felt("0x10"), value: felt("0x1") },
        StorageDiff { key: felt("0x10"), value: felt("0x2") },
    ]));
    d.declared_classes.push(DeclaredClass { class_hash: felt("0xc1"), compiled_class_hash: felt("0xcc") });
    let csd = build_commitment_state_diff(d);
    assert_eq!(csd.address_to_class_hash.len(), 2);
    assert_eq!(csd.address_to_class_hash.get(&felt("0xa")), Some(&felt("0xc3")));
    assert_eq!(csd.address_to_class_hash.get(&felt("0x1")), Some(&Felt::zero()));
    assert_eq!(csd.address_to_class_hash.key_at(0), felt("0xa"));
    assert_eq!(csd.address_to_nonce.get(&felt("0xa")), Some(&felt("0x2")));
    let inner = csd.storage_updates.get(&felt("0xa")).unwrap();
    assert_eq!(inner.len(), 1);
    assert_eq!(inner.get(&felt("0x10")), Some(&felt("0x2")));
    assert_eq!(csd.class_hash_to_compiled_class_hash.get(&felt("0xc1")), Some(&felt("0xcc")));
}

#[test]
fn class_hash_falls_back_then_fails() {
    let mut d = empty_diff();
    d.deployed_contracts.push(DeployedContract { address: felt("0xa"), class_hash: felt("0xc1") });
    let csd = build_commitment_state_diff(d);
    assert_eq!(class_hash(&csd, &felt("0xa"), Some(felt("0xff"))), Ok(felt("0xc1")));
    assert_eq!(class_hash(&csd, &felt("0xb"), Some(felt("0xff"))), Ok(felt("0xff")));
    assert_eq!(class_hash(&csd, &felt("0xb"), None), Err(CommitmentError::InvariantViolation));
}

#[test]
fn contract_leaves_cover_every_touched_contract() {
    let mut d = empty_diff();
    d.deployed_contracts.push(DeployedContract { address: felt("0xa"), class_hash: felt("0xc1") });
    d.storage_diffs.push((felt("0xb"), vec![StorageDiff { key: felt("0x1"), value: felt("0x2") }]));
    d.nonces.push((felt("0xc"), felt("0x3")));
    let csd = build_commitment_state_diff(d);
    let mut roots = FeltMap::new();
    roots.insert(felt("0xa"), felt("0x100"));
    roots.insert(felt("0xb"), felt("0x200"));
    roots.insert(felt("0xc"), felt("0x300"));
    let mut previous = FeltMap::new();
    previous.insert(felt("0xb"), felt("0xcb"));
    previous.insert(felt("0xc"), felt("0xcc"));
    let leaves = contract_leaves(&csd, &roots, &previous).unwrap();
    assert_eq!(leaves.len(), 3);
    assert_eq!(
        leaves.get(&felt("0xa")),
        Some(&contract_state_leaf_hash(&felt("0xc1"), &felt("0x100"), &Felt::zero()))
    );
    assert_eq!(
        leaves.get(&felt("0xb")),
        Some(&contract_state_leaf_hash(&felt("0xcb"), &felt("0x200"), &Felt::zero()))
    );
    assert_eq!(
        leaves.get(&felt("0xc")),
        Some(&contract_state_leaf_hash(&felt("0xcc"), &felt("0x300"), &felt("0x3")))
    );
}

#[test]
fn contract_leaves_fail_fast_without_class_hash() {
    let mut d = empty_diff();
    d.storage_diffs.push((felt("0xb"), vec![StorageDiff { key: felt("0x1"), value: felt("0x2") }]));
    let csd = build_commitment_state_diff(d);
    let mut roots = FeltMap::new();
    roots.insert(felt("0xb"), felt("0x200"));
    let previous = FeltMap::new();
    assert!(matches!(contract_leaves(&csd, &roots, &previous), Err(CommitmentError::InvariantViolation)));
}

#[test]
fn contract_leaves_fail_fast_without_storage_root() {
    let mut d = empty_diff();
    d.deployed_contracts.push(DeployedContract { address: felt("0xa"), class_hash: felt("0xc1") });
    let csd = build_commitment_state_diff(d);
    let roots = FeltMap::new();
    let previous = FeltMap::new();
    assert!(matches!(contract_leaves(&csd, &roots, &previous), Err(CommitmentError::InvariantViolation)));
}

#[test]
fn leaves_do_not_depend_on_insertion_order() {
    let entries = [("0xa", "0xc1"), ("0xb", "0xc2"), ("0xd", "0xc4")];
    let mut d1 = empty_diff();
    let mut d2 = empty_diff();
    for (a, c) in entries.iter() {
        d1.deployed_contracts.push(DeployedContract { address: felt(a), class_hash: felt(c) });
        d1.declared_classes.push(DeclaredClass { class_hash: felt(c), compiled_class_hash: felt(a) });
    }
    for (a, c) in entries.iter().rev() {
        d2.deployed_contracts.push(DeployedContract { address: felt(a), class_hash: felt(c) });
        d2.declared_classes.push(DeclaredClass { class_hash: felt(c), compiled_class_hash: felt(a) });
    }
    let c1 = build_commitment_state_diff(d1);
    let c2 = build_commitment_state_diff(d2);
    let mut roots = FeltMap::new();
    for (a, _) in entries.iter() {
        roots.insert(felt(a), felt("0x77"));
    }
    let previous = FeltMap::new();
    let l1 = contract_leaves(&c1, &roots, &previous).unwrap();
    let l2 = contract_leaves(&c2, &roots, &previous).unwrap();
    let k1 = class_leaves(&c1);
    let k2 = class_leaves(&c2);
    assert_eq!(l1.len(), l2.len());
    assert_eq!(k1.len(), k2.len());
    for (a, c) in entries.iter() {
        assert_eq!(l1.get(&felt(a)), l2.get(&felt(a)));
        assert_eq!(k1.get(&felt(c)), k2.get(&felt(c)));
        assert_eq!(k1.get(&felt(c)), Some(&class_leaf_hash(&felt(a))));
    }
    assert_ne!(l1.key_at(0), l2.key_at(0));
}

#[test]
fn no_declared_classes_no_class_leaves() {
    let csd = build_commitment_state_diff(empty_diff());
    assert_eq!(class_leaves(&csd).len(), 0);
}

#[test]
fn touched_contracts_outside_a_map() {
    let mut d = empty_diff();
    d.deployed_contracts.push(DeployedContract { address: felt("0xa"), class_hash: felt("0xc1") });
    d.storage_diffs.push((felt("0xb"), vec![StorageDiff { key: felt("0x1"), value: felt("0x2") }]));
    d.storage_diffs.push((felt("0xa"), vec![StorageDiff { key: felt("0x1"), value: felt("0x2") }]));
    d.nonces.push((felt("0xc"), felt("0x3")));
    d.nonces.push((felt("0xa"), felt("0x4")));
    let csd = build_commitment_state_diff(d);
    let mut no_root = deoxys_state::commitment::touched_outside(&csd, &csd.storage_updates);
    no_root.sort_by_key(|f| f.to_bytes_be());
    assert_eq!(no_root, vec![felt("0xc")]);
    let mut no_class = deoxys_state::commitment::touched_outside(&csd, &csd.address_to_class_hash);
    no_class.sort_by_key(|f| f.to_bytes_be());
    assert_eq!(no_class, vec![felt("0xb"), felt("0xc")]);
    let none: FeltMap<Felt> = FeltMap::new();
    assert_eq!(deoxys_state::commitment::touched_outside(&csd, &none).len(), 3);
}
