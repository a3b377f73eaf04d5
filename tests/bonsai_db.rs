use deoxys_state::bonsai_db::{BonsaiDb, DatabaseKey, DatabaseKeyMapping};
use deoxys_state::error::StorageError;
use deoxys_state::store::KeyedStore;

fn mapping() -> DatabaseKeyMapping {
    DatabaseKeyMapping { flat: 0, trie: 1, trie_log: 2 }
}

fn db() -> BonsaiDb {
    match BonsaiDb::new(KeyedStore::new(3), mapping()) {
        Ok(db) => db,
        Err(e) => panic!("{:?}", e),
    }
}

fn flat(k: &[u8]) -> DatabaseKey {
    DatabaseKey::Flat(k.to_vec())
}

#[test]
fn new_checks_the_mapping() {
    let r = BonsaiDb::new(KeyedStore::new(2), mapping());
    assert!(matches!(r, Err(StorageError::MissingColumn)));
    let shared = DatabaseKeyMapping { flat: 0, trie: 0, trie_log: 1 };
    let r = BonsaiDb::new(KeyedStore::new(3), shared);
    assert!(matches!(r, Err(StorageError::SharedColumn)));
}

#[test]
fn namespaces_map_to_their_columns() {
    let m = mapping();
    assert_eq!(m.map(&DatabaseKey::Flat(vec![1])), 0);
    assert_eq!(m.map(&DatabaseKey::Trie(vec![1])), 1);
    assert_eq!(m.map(&DatabaseKey::TrieLog(vec![1])), 2);
    let mut d = db();
    d.insert(&DatabaseKey::Trie(b"k".to_vec()), b"trie").unwrap();
    d.insert(&DatabaseKey::Flat(b"k".to_vec()), b"flat").unwrap();
    assert_eq!(d.get(&DatabaseKey::Trie(b"k".to_vec())), Ok(Some(b"trie".to_vec())));
    assert_eq!(d.get(&DatabaseKey::Flat(b"k".to_vec())), Ok(Some(b"flat".to_vec())));
    assert_eq!(d.get(&DatabaseKey::TrieLog(b"k".to_vec())), Ok(None));
    assert_eq!(d.contains(&DatabaseKey::TrieLog(b"k".to_vec())), Ok(false));
}

#[test]
fn insert_and_remove_return_previous_values() {
    let mut d = db();
    assert_eq!(d.insert(&flat(b"k"), b"1"), Ok(None));
    assert_eq!(d.insert(&flat(b"k"), b"2"), Ok(Some(b"1".to_vec())));
    assert_eq!(d.remove(&flat(b"k")), Ok(Some(b"2".to_vec())));
    assert_eq!(d.remove(&flat(b"k")), Ok(None));
}

#[test]
fn batched_writes_wait_for_the_batch() {
    let mut d = db();
    let mut b = d.create_batch();
    d.insert(&flat(b"gone"), b"0").unwrap();
    assert_eq!(d.insert_into_batch(&flat(b"k"), b"1", &mut b), Ok(None));
    assert_eq!(d.remove_into_batch(&flat(b"gone"), &mut b), Ok(Some(b"0".to_vec())));
    assert_eq!(d.get(&flat(b"k")), Ok(None));
    assert_eq!(d.get(&flat(b"gone")), Ok(Some(b"0".to_vec())));
    assert_eq!(d.write_batch(b), Ok(()));
    assert_eq!(d.get(&flat(b"k")), Ok(Some(b"1".to_vec())));
    assert_eq!(d.get(&flat(b"gone")), Ok(None));
}

#[test]
fn adapter_prefix_operations() {
    let mut d = db();
    d.insert(&flat(b"ab2"), b"2").unwrap();
    d.insert(&flat(b"ab1"), b"1").unwrap();
    d.insert(&flat(b"ac"), b"3").unwrap();
    d.insert(&DatabaseKey::Trie(b"ab3".to_vec()), b"4").unwrap();
    let pairs = d.get_by_prefix(&flat(b"ab")).unwrap();
    assert_eq!(pairs, vec![(b"ab1".to_vec(), b"1".to_vec()), (b"ab2".to_vec(), b"2".to_vec())]);
    assert_eq!(d.remove_by_prefix(&flat(b"ab")), Ok(()));
    assert_eq!(d.get(&flat(b"ab1")), Ok(None));
    assert_eq!(d.get(&flat(b"ac")), Ok(Some(b"3".to_vec())));
    assert_eq!(d.get(&DatabaseKey::Trie(b"ab3".to_vec())), Ok(Some(b"4".to_vec())));
}

#[test]
fn transaction_needs_a_snapshot() {
    let mut d = db();
    assert!(d.transaction(5).is_none());
    d.snapshot(5);
    assert!(d.transaction(5).is_some());
    assert!(d.transaction(6).is_none());
}

#[test]
fn snapshot_isolation() {
    let mut d = db();
    d.insert(&flat(b"old"), b"1").unwrap();
    d.snapshot(5);
    d.insert(&flat(b"k"), b"live").unwrap();
    let mut t = d.transaction(5).unwrap();
    assert_eq!(t.get(&flat(b"k")), Ok(None));
    assert_eq!(t.get(&flat(b"old")), Ok(Some(b"1".to_vec())));
    assert_eq!(t.insert(&flat(b"t"), b"mine"), Ok(None));
    assert_eq!(t.get(&flat(b"t")), Ok(Some(b"mine".to_vec())));
    assert_eq!(d.get(&flat(b"t")), Ok(None));
    assert_eq!(d.merge(t), Ok(()));
    assert_eq!(d.get(&flat(b"t")), Ok(Some(b"mine".to_vec())));
    assert_eq!(d.get(&flat(b"k")), Ok(Some(b"live".to_vec())));
}

#[test]
fn snapshot_is_overwritten_at_the_same_id() {
    let mut d = db();
    d.snapshot(1);
    d.insert(&flat(b"k"), b"v").unwrap();
    d.snapshot(1);
    let t = d.transaction(1).unwrap();
    assert_eq!(t.get(&flat(b"k")), Ok(Some(b"v".to_vec())));
}

#[test]
fn conflicting_transactions() {
    let mut d = db();
    d.snapshot(1);
    let mut first = d.transaction(1).unwrap();
    let mut second = d.transaction(1).unwrap();
    first.insert(&flat(b"K"), b"a").unwrap();
    second.insert(&flat(b"K"), b"b").unwrap();
    assert_eq!(d.merge(first), Ok(()));
    assert_eq!(d.merge(second), Err(StorageError::TransactionConflict));
    assert_eq!(d.get(&flat(b"K")), Ok(Some(b"a".to_vec())));
}

#[test]
fn disjoint_transactions_both_merge() {
    let mut d = db();
    d.snapshot(1);
    let mut first = d.transaction(1).unwrap();
    let mut second = d.transaction(1).unwrap();
    first.insert(&flat(b"A"), b"a").unwrap();
    second.insert(&flat(b"B"), b"b").unwrap();
    assert_eq!(d.merge(first), Ok(()));
    assert_eq!(d.merge(second), Ok(()));
    assert_eq!(d.get(&flat(b"A")), Ok(Some(b"a".to_vec())));
    assert_eq!(d.get(&flat(b"B")), Ok(Some(b"b".to_vec())));
}

#[test]
fn transaction_removals_and_batches_merge() {
    let mut d = db();
    d.insert(&flat(b"pa"), b"1").unwrap();
    d.insert(&flat(b"pb"), b"2").unwrap();
    d.insert(&flat(b"q"), b"3").unwrap();
    d.snapshot(2);
    let mut t = d.transaction(2).unwrap();
    assert_eq!(t.remove_by_prefix(&flat(b"p")), Ok(()));
    assert_eq!(t.get_by_prefix(&flat(b"p")).unwrap().len(), 0);
    let mut b = t.create_batch();
    t.insert_into_batch(&flat(b"n"), b"4", &mut b).unwrap();
    t.remove_into_batch(&flat(b"q"), &mut b).unwrap();
    assert_eq!(t.contains(&flat(b"n")), Ok(false));
    assert_eq!(t.write_batch(b), Ok(()));
    assert_eq!(t.contains(&flat(b"n")), Ok(true));
    assert_eq!(t.remove(&flat(b"n")), Ok(Some(b"4".to_vec())));
    assert_eq!(d.merge(t), Ok(()));
    assert_eq!(d.get(&flat(b"pa")), Ok(None));
    assert_eq!(d.get(&flat(b"pb")), Ok(None));
    assert_eq!(d.get(&flat(b"q")), Ok(None));
    assert_eq!(d.get(&flat(b"n")), Ok(None));
}

#[test]
fn released_snapshot_opens_no_transaction() {
    let mut d = db();
    d.snapshot(7);
    d.snapshot(8);
    assert!(d.release_snapshot(7));
    assert!(!d.release_snapshot(7));
    assert!(d.transaction(7).is_none());
    assert!(d.transaction(8).is_some());
}

#[test]
fn conflict_when_first_write_repeats_the_old_value() {
    let mut d = db();
    d.insert(&flat(b"K"), b"v1").unwrap();
    d.snapshot(3);
    let mut first = d.transaction(3).unwrap();
    let mut second = d.transaction(3).unwrap();
    first.insert(&flat(b"K"), b"v1").unwrap();
    second.insert(&flat(b"K"), b"v2").unwrap();
    assert_eq!(d.merge(first), Ok(()));
    assert_eq!(d.merge(second), Err(StorageError::TransactionConflict));
    assert_eq!(d.get(&flat(b"K")), Ok(Some(b"v1".to_vec())));
}

#[test]
fn live_write_after_snapshot_conflicts_with_transaction() {
    let mut d = db();
    d.snapshot(4);
    let mut t = d.transaction(4).unwrap();
    d.insert(&flat(b"K"), b"live").unwrap();
    t.insert(&flat(b"K"), b"txn").unwrap();
    assert_eq!(d.merge(t), Err(StorageError::TransactionConflict));
    let mut t = d.transaction(4).unwrap();
    t.insert(&flat(b"other"), b"txn").unwrap();
    assert_eq!(d.merge(t), Ok(()));
}
