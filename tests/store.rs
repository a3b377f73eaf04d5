use deoxys_state::error::StorageError;
use deoxys_state::store::{Batch, KeyedStore};
use deoxys_state::table::Table;

fn keys_of(pairs: &[(Vec<u8>, Vec<u8>)]) -> Vec<Vec<u8>> {
    pairs.iter().map(|p| p.0.clone()).collect()
}

#[test]
fn table_insert_get_remove() {
    let mut t = Table::new();
    assert_eq!(t.insert(b"k", b"v1"), None);
    assert_eq!(t.insert(b"k", b"v2"), Some(b"v1".to_vec()));
    assert_eq!(t.get(b"k"), Some(b"v2".to_vec()));
    assert!(t.contains(b"k"));
    assert_eq!(t.remove(b"k"), Some(b"v2".to_vec()));
    assert_eq!(t.get(b"k"), None);
    assert_eq!(t.remove(b"k"), None);
    assert!(!t.contains(b"k"));
}

#[test]
fn table_empty_key_and_value() {
    let mut t = Table::new();
    assert_eq!(t.insert(b"", b""), None);
    assert_eq!(t.get(b""), Some(Vec::new()));
    assert_eq!(t.keys(), vec![Vec::<u8>::new()]);
}

#[test]
fn prefix_deletion_keeps_adjacent_keys() {
    let mut t = Table::new();
    for k in [&b"a"[..], b"ab", b"abc", b"abd", b"ac", b"b", b"aab"] {
        t.insert(k, b"x");
    }
    t.remove_by_prefix(b"ab");
    let mut keys = t.keys();
    keys.sort();
    assert_eq!(keys, vec![b"a".to_vec(), b"aab".to_vec(), b"ac".to_vec(), b"b".to_vec()]);
    assert_eq!(t.get(b"ac"), Some(b"x".to_vec()));
    assert_eq!(t.get(b"abc"), None);
}

#[test]
fn prefix_scan_lists_matching_entries() {
    let mut t = Table::new();
    t.insert(b"ab2", b"3");
    t.insert(b"ac", b"2");
    t.insert(b"ab1", b"1");
    t.insert(b"a", b"4");
    t.insert(b"ab", b"5");
    let pairs = t.get_by_prefix(b"ab");
    assert_eq!(keys_of(&pairs), vec![b"ab".to_vec(), b"ab1".to_vec(), b"ab2".to_vec()]);
    for (k, v) in pairs.iter() {
        assert_eq!(t.get(k), Some(v.clone()));
    }
    assert_eq!(
        keys_of(&t.get_by_prefix(b"")),
        vec![b"a".to_vec(), b"ab".to_vec(), b"ab1".to_vec(), b"ab2".to_vec(), b"ac".to_vec()]
    );
    assert!(t.get_by_prefix(b"zz").is_empty());
}

#[test]
fn store_columns_are_separate() {
    let mut s = KeyedStore::new(2);
    assert_eq!(s.n_columns(), 2);
    assert_eq!(s.insert(0, b"k", b"zero"), Ok(None));
    assert_eq!(s.insert(1, b"k", b"one"), Ok(None));
    assert_eq!(s.get(0, b"k"), Ok(Some(b"zero".to_vec())));
    assert_eq!(s.get(1, b"k"), Ok(Some(b"one".to_vec())));
    assert_eq!(s.remove(0, b"k"), Ok(Some(b"zero".to_vec())));
    assert_eq!(s.contains(0, b"k"), Ok(false));
    assert_eq!(s.contains(1, b"k"), Ok(true));
}

#[test]
fn store_missing_column() {
    let mut s = KeyedStore::new(1);
    assert_eq!(s.get(1, b"k"), Err(StorageError::MissingColumn));
    assert_eq!(s.insert(3, b"k", b"v"), Err(StorageError::MissingColumn));
    assert_eq!(s.remove(1, b"k"), Err(StorageError::MissingColumn));
    assert_eq!(s.contains(1, b"k"), Err(StorageError::MissingColumn));
    assert_eq!(s.remove_by_prefix(1, b"k"), Err(StorageError::MissingColumn));
    assert!(matches!(s.get_by_prefix(1, b"k"), Err(StorageError::MissingColumn)));
}

#[test]
fn store_prefix_removal_in_one_column() {
    let mut s = KeyedStore::new(2);
    s.insert(0, b"pa", b"1").unwrap();
    s.insert(0, b"qa", b"2").unwrap();
    s.insert(1, b"pa", b"3").unwrap();
    assert_eq!(s.remove_by_prefix(0, b"p"), Ok(()));
    assert_eq!(s.get(0, b"pa"), Ok(None));
    assert_eq!(s.get(0, b"qa"), Ok(Some(b"2".to_vec())));
    assert_eq!(s.get(1, b"pa"), Ok(Some(b"3".to_vec())));
    let mut keys = s.keys_with_prefix(0, b"");
    keys.sort();
    assert_eq!(keys, vec![b"qa".to_vec()]);
}

#[test]
fn batch_applies_in_order() {
    let mut s = KeyedStore::new(2);
    let mut b = Batch::new();
    b.put(0, b"k", b"1");
    b.put(1, b"j", b"2");
    b.delete(0, b"k");
    b.put(0, b"k", b"3");
    assert_eq!(s.get(0, b"k"), Ok(None));
    assert_eq!(s.write_batch(b), Ok(()));
    assert_eq!(s.get(0, b"k"), Ok(Some(b"3".to_vec())));
    assert_eq!(s.get(1, b"j"), Ok(Some(b"2".to_vec())));
}

#[test]
fn batch_with_missing_column_applies_nothing() {
    let mut s = KeyedStore::new(1);
    let mut b = Batch::new();
    b.put(0, b"k", b"1");
    b.put(1, b"k", b"2");
    assert_eq!(s.write_batch(b), Err(StorageError::MissingColumn));
    assert_eq!(s.get(0, b"k"), Ok(None));
}

#[test]
fn duplicate_is_independent() {
    let mut s = KeyedStore::new(1);
    s.insert(0, b"k", b"1").unwrap();
    let copy = s.duplicate();
    s.insert(0, b"k", b"2").unwrap();
    assert_eq!(copy.get(0, b"k"), Ok(Some(b"1".to_vec())));
    assert_eq!(s.get(0, b"k"), Ok(Some(b"2".to_vec())));
}
