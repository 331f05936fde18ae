use wbcache::Store;

fn store_with(entries: &[(&[u8], &[u8])]) -> Store {
    let mut store = Store::new();
    for (k, v) in entries {
        store.put(k.to_vec(), v.to_vec());
    }
    store
}

#[test]
fn store_get_put() {
    let mut store = Store::new();
    assert_eq!(store.len(), 0);
    assert_eq!(store.get(b"10"), None);

    store.put(b"10".to_vec(), vec![1]);
    store.put(b"20".to_vec(), vec![2]);
    store.put(b"30".to_vec(), vec![3]);
    assert_eq!(store.len(), 3);
    assert_eq!(store.get(b"10"), Some(vec![1]));
    assert_eq!(store.get(b"20"), Some(vec![2]));
    assert_eq!(store.get(b"30"), Some(vec![3]));
    assert_eq!(store.get(b"15"), None);

    // Overwriting replaces the value without growing the store.
    store.put(b"20".to_vec(), vec![9, 9]);
    assert_eq!(store.len(), 3);
    assert_eq!(store.get(b"20"), Some(vec![9, 9]));
}

// Seeks over a store with keys "10", "20", "30".
#[test]
fn seek_bounds() {
    let store = store_with(&[(b"10", &[1]), (b"20", &[2]), (b"30", &[3])]);
    let seek = store.seek();

    // The first entry at or after the given key.
    assert_eq!(seek.next(b"11"), Some((b"20".to_vec(), vec![2])));
    // The last entry at or before the given key.
    assert_eq!(seek.prev(b"11"), Some((b"10".to_vec(), vec![1])));
    // Past the last key: absent.
    assert_eq!(seek.next(b"31"), None);
    // Before the first key: absent.
    assert_eq!(seek.prev(b"01"), None);
}

#[test]
fn seek_sweep() {
    let store = store_with(&[(b"10", &[1]), (b"20", &[2]), (b"30", &[3])]);

    assert_eq!(store.seek().next(b"00").unwrap().1, vec![1]);
    assert_eq!(store.seek().next(b"01").unwrap().1, vec![1]);
    assert_eq!(store.seek().next(b"10").unwrap().1, vec![1]);
    assert_eq!(store.seek().next(b"11").unwrap().1, vec![2]);
    assert_eq!(store.seek().next(b"20").unwrap().1, vec![2]);
    assert_eq!(store.seek().next(b"21").unwrap().1, vec![3]);
    assert_eq!(store.seek().next(b"30").unwrap().1, vec![3]);
    assert_eq!(store.seek().next(b"31"), None);

    assert_eq!(store.seek().prev(b"00"), None);
    assert_eq!(store.seek().prev(b"01"), None);
    assert_eq!(store.seek().prev(b"10").unwrap().1, vec![1]);
    assert_eq!(store.seek().prev(b"11").unwrap().1, vec![1]);
    assert_eq!(store.seek().prev(b"20").unwrap().1, vec![2]);
    assert_eq!(store.seek().prev(b"21").unwrap().1, vec![2]);
    assert_eq!(store.seek().prev(b"30").unwrap().1, vec![3]);
    assert_eq!(store.seek().prev(b"31").unwrap().1, vec![3]);
}

#[test]
fn error_kinds() {
    let a = wbcache::store::error_invalid_input(String::from("bad bytes"));
    assert!(matches!(a, wbcache::Error::InvalidInput(m) if m == "bad bytes"));
    let b = wbcache::store::error_other(String::from("backend fault"));
    assert!(matches!(b, wbcache::Error::Other(m) if m == "backend fault"));
}

#[test]
fn byte_order_helpers() {
    assert!(wbcache::bytes::bytes_le(b"10", b"20"));
    assert!(wbcache::bytes::bytes_le(b"10", b"10"));
    assert!(!wbcache::bytes::bytes_le(b"20", b"10"));
    // A proper prefix sorts first.
    assert!(wbcache::bytes::bytes_le(b"1", b"10"));
    assert!(!wbcache::bytes::bytes_le(b"10", b"1"));
    assert!(wbcache::bytes::bytes_eq(b"10", b"10"));
    assert!(!wbcache::bytes::bytes_eq(b"10", b"11"));
    assert!(!wbcache::bytes::bytes_eq(b"10", b"100"));
    assert_eq!(wbcache::bytes::bytes_clone(b"101"), b"101".to_vec());
}
