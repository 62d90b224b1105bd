use rkvs::store::Store;

#[test]
fn store_round_trip() {
    let mut s = Store::new();
    s.put(b"a".to_vec(), b"1".to_vec());
    assert_eq!(s.get(b"a"), Some(b"1".to_vec()));
}

#[test]
fn store_get_unset_key() {
    let s = Store::new();
    assert_eq!(s.get(b"a"), None);
}

#[test]
fn store_overwrite() {
    let mut s = Store::new();
    s.put(b"a".to_vec(), b"1".to_vec());
    s.put(b"a".to_vec(), b"2".to_vec());
    assert_eq!(s.get(b"a"), Some(b"2".to_vec()));
}

#[test]
fn store_distinct_keys() {
    let mut s = Store::new();
    s.put(b"a".to_vec(), b"1".to_vec());
    s.put(b"b".to_vec(), b"2".to_vec());
    assert_eq!(s.get(b"a"), Some(b"1".to_vec()));
    assert_eq!(s.get(b"b"), Some(b"2".to_vec()));
}
