use deoxys_state::bonsai_db::{BonsaiDb, DatabaseKeyMapping};
use deoxys_state::commitment::{
    build_commitment_state_diff, calculate_state_root, class_leaves, CommitmentError, DeployedContract,
    StateDiff, StorageDiff,
};
use deoxys_state::felt::Felt;
use deoxys_state::handler::StorageHandler;
use deoxys_state::store::KeyedStore;
use starknet_ff::FieldElement;

fn felt(hex: &str) -> Felt {
    let fe = FieldElement::from_hex_be(hex).unwrap();
    Felt::from_bytes_be(fe.to_bytes_be()).unwrap()
}

fn handler() -> StorageHandler {
    let mapping = DatabaseKeyMapping { flat: 0, trie: 1, trie_log: 2 };
    match BonsaiDb::new(KeyedStore::new(3), mapping) {
        Ok(db) => StorageHandler::new(db),
        Err(e) => panic!("{:?}", e),
    }
}

#[test]
fn lifecycle_out_of_order_is_refused() {
    let mut h = handler();
    let id = felt("0xa");
    assert_eq!(h.insert(&id, &felt("0x1"), &felt("0x2")), Err(CommitmentError::InvariantViolation));
    assert_eq!(h.commit(1), Err(CommitmentError::InvariantViolation));
    assert_eq!(h.apply_changes(), Err(CommitmentError::InvariantViolation));
    assert_eq!(h.init(), Ok(()));
    assert_eq!(h.init(), Ok(()));
    assert_eq!(h.apply_changes(), Err(CommitmentError::InvariantViolation));
    assert_eq!(h.insert(&id, &felt("0x1"), &felt("0x2")), Ok(()));
    assert_eq!(h.commit(1), Ok(()));
    assert_eq!(h.init(), Err(CommitmentError::InvariantViolation));
    assert_eq!(h.insert(&id, &felt("0x1"), &felt("0x3")), Err(CommitmentError::InvariantViolation));
    assert_eq!(h.apply_changes(), Ok(()));
    assert_eq!(h.apply_changes(), Err(CommitmentError::InvariantViolation));
    assert_eq!(h.get(&id, &felt("0x1")), Ok(Some(felt("0x2"))));
}

#[test]
fn staged_leaves_are_invisible_until_merged() {
    let mut h = handler();
    let id = felt("0xa");
    h.init().unwrap();
    h.update(&id, &vec![(felt("0x1"), felt("0x5")), (felt("0x2"), felt("0x6")), (felt("0x1"), felt("0x7"))]).unwrap();
    assert_eq!(h.get(&id, &felt("0x1")), Ok(None));
    h.commit(3).unwrap();
    assert_eq!(h.get(&id, &felt("0x1")), Ok(None));
    h.apply_changes().unwrap();
    assert_eq!(h.get(&id, &felt("0x1")), Ok(Some(felt("0x7"))));
    assert_eq!(h.get(&id, &felt("0x2")), Ok(Some(felt("0x6"))));
    assert_eq!(h.get(&felt("0xb"), &felt("0x1")), Ok(None));
}

#[test]
fn merged_reads_repeat() {
    let mut h = handler();
    let id = felt("0xa");
    h.init().unwrap();
    h.insert(&id, &felt("0x1"), &felt("0x9")).unwrap();
    h.commit(1).unwrap();
    h.apply_changes().unwrap();
    let first = h.get(&id, &felt("0x1"));
    let second = h.get(&id, &felt("0x1"));
    assert_eq!(first, second);
    assert_eq!(first, Ok(Some(felt("0x9"))));
}

#[test]
fn second_round_builds_on_the_first() {
    let mut h = handler();
    let id = felt("0xa");
    h.init().unwrap();
    h.insert(&id, &felt("0x1"), &felt("0x1")).unwrap();
    h.commit(1).unwrap();
    h.apply_changes().unwrap();
    h.init().unwrap();
    h.insert(&id, &felt("0x2"), &felt("0x2")).unwrap();
    h.commit(2).unwrap();
    h.apply_changes().unwrap();
    assert_eq!(h.get(&id, &felt("0x1")), Ok(Some(felt("0x1"))));
    assert_eq!(h.get(&id, &felt("0x2")), Ok(Some(felt("0x2"))));
}

#[test]
fn end_to_end_block_ten() {
    let a = felt("0xa11ce");
    let c1 = felt("0xc1");
    let k = felt("0x4b");
    let v = felt("0x56");
    let diff = StateDiff {
        deployed_contracts: vec![DeployedContract { address: a, class_hash: c1 }],
        nonces: vec![],
        storage_diffs: vec![(a, vec![StorageDiff { key: k, value: v }])],
        declared_classes: vec![],
    };
    let csd = build_commitment_state_diff(diff);
    let block_number: u64 = 10;

    let mut storage = handler();
    storage.init().unwrap();
    for i in 0..csd.storage_updates.len() {
        let address = csd.storage_updates.key_at(i);
        let updates = csd.storage_updates.value_at(i);
        for j in 0..updates.len() {
            storage.insert(&address, &updates.key_at(j), updates.value_at(j)).unwrap();
        }
    }
    storage.commit(block_number + 1).unwrap();
    storage.apply_changes().unwrap();
    assert_eq!(storage.get(&a, &k), Ok(Some(v)));

    assert_eq!(class_leaves(&csd).len(), 0);
    let contract_root = felt("0x123456");
    assert_eq!(calculate_state_root(&contract_root, &Felt::zero()), contract_root);
}

#[test]
fn stored_bytes_that_are_no_field_element() {
    let mapping = DatabaseKeyMapping { flat: 0, trie: 1, trie_log: 2 };
    let mut db = match BonsaiDb::new(KeyedStore::new(3), mapping) {
        Ok(db) => db,
        Err(e) => panic!("{:?}", e),
    };
    let id = felt("0xa");
    let short = felt("0x1");
    let wide = felt("0x2");
    let mut k1 = id.to_vec();
    k1.extend_from_slice(&short.to_bytes_be());
    let mut k2 = id.to_vec();
    k2.extend_from_slice(&wide.to_bytes_be());
    db.insert(&deoxys_state::bonsai_db::DatabaseKey::Flat(k1), b"abc").unwrap();
    db.insert(&deoxys_state::bonsai_db::DatabaseKey::Flat(k2), &[0xff; 32]).unwrap();
    let h = StorageHandler::new(db);
    assert_eq!(h.get(&id, &short), Err(CommitmentError::OutOfRange));
    assert_eq!(h.get(&id, &wide), Err(CommitmentError::OutOfRange));
}
