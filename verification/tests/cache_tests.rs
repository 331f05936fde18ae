use wbcache::cache::Raw;

#[test]
fn cache_ops() {
    {
        let mut cache: Raw<i32> = Raw::new(1);
        assert_eq!(cache.put(b"1".to_vec(), 1), None);
        assert!(cache.get(b"1").is_some());
        assert!(cache.get(b"2").is_none());

        assert_eq!(cache.put(b"2".to_vec(), 2), Some((b"1".to_vec(), 1)));
        assert!(cache.get(b"1").is_none());
        assert!(cache.get(b"2").is_some());
    }
    {
        let mut cache: Raw<i32> = Raw::new(2);
        cache.put(b"1".to_vec(), 10);
        cache.put(b"2".to_vec(), 20);
        assert_eq!(cache.get(b"1"), Some(&mut 10));
        assert_eq!(*cache.index(b"1"), 10);
        assert_eq!(cache.lru(), Some((&b"2".to_vec(), &20)));
        assert_eq!(cache.get(b"2"), Some(&mut 20));
        assert_eq!(*cache.index(b"2"), 20);
        assert_eq!(cache.lru(), Some((&b"1".to_vec(), &10)));
        assert_eq!(cache.len(), 2);
    }
    {
        let mut cache: Raw<i32> = Raw::new(1);
        cache.put(b"1".to_vec(), 10);
        cache.put(b"1".to_vec(), 19);
        assert_eq!(cache.get(b"1"), Some(&mut 19));
        assert_eq!(cache.len(), 1);
        *cache.index_mut(b"1") = 20;
        assert_eq!(cache.get(b"1"), Some(&mut 20));
    }
    {
        let mut cache: Raw<i32> = Raw::new(2);
        cache.put(b"1".to_vec(), 1);
        cache.put(b"2".to_vec(), 2);
        cache.put(b"3".to_vec(), 3);
        assert!(cache.get(b"1").is_none());

        cache.put(b"2".to_vec(), 2);
        cache.put(b"4".to_vec(), 4);
        assert!(cache.get(b"3").is_none());
        assert_eq!(cache.lru(), Some((&b"2".to_vec(), &2)));
    }
    {
        let mut cache: Raw<i32> = Raw::new(3);
        cache.put(b"1".to_vec(), 10);
        cache.put(b"2".to_vec(), 20);
        cache.put(b"3".to_vec(), 30);
        cache.put(b"4".to_vec(), 40);
        cache.put(b"5".to_vec(), 50);
        let mut entries: Vec<(Vec<u8>, i32)> = Vec::new();
        let mut i = 0;
        while i < cache.len() {
            let (k, v) = cache.entry_at(i);
            entries.push((k.clone(), *v));
            i += 1;
        }
        assert_eq!(
            entries,
            vec![(b"3".to_vec(), 30), (b"4".to_vec(), 40), (b"5".to_vec(), 50)]
        );
    }
}

// A sequence of puts never leaves more resident entries than the capacity.
#[test]
fn put_respects_capacity() {
    let mut cache: Raw<u64> = Raw::new(4);
    for round in 0..100u64 {
        let key = vec![(round % 13) as u8, (round % 7) as u8];
        cache.put(key, round);
        assert!(cache.len() <= 4);
        assert_eq!(cache.capacity(), 4);
    }
}

// A hit reorders the recency order but never changes the resident set.
#[test]
fn get_only_reorders() {
    let mut cache: Raw<i32> = Raw::new(3);
    cache.put(b"a".to_vec(), 1);
    cache.put(b"b".to_vec(), 2);
    cache.put(b"c".to_vec(), 3);

    assert!(cache.get(b"a").is_some());
    assert_eq!(cache.len(), 3);
    assert!(cache.contains_key(b"a"));
    assert!(cache.contains_key(b"b"));
    assert!(cache.contains_key(b"c"));
    // "a" is now most recently used, "b" the least.
    assert_eq!(cache.lru(), Some((&b"b".to_vec(), &2)));
    assert_eq!(cache.mru(), Some((&b"a".to_vec(), &1)));
}

// Capacity 2, puts A, B, C: A is evicted; {B, C} stay with B as LRU.
#[test]
fn eviction_takes_lru() {
    let mut cache: Raw<i32> = Raw::new(2);
    assert_eq!(cache.put(b"A".to_vec(), 1), None);
    assert_eq!(cache.put(b"B".to_vec(), 2), None);
    assert_eq!(cache.put(b"C".to_vec(), 3), Some((b"A".to_vec(), 1)));
    assert_eq!(cache.len(), 2);
    assert!(!cache.contains_key(b"A"));
    assert!(cache.contains_key(b"B"));
    assert!(cache.contains_key(b"C"));
    assert_eq!(cache.lru(), Some((&b"B".to_vec(), &2)));
}

#[test]
fn raw_misc_ops() {
    let mut cache: Raw<i32> = Raw::new(5);
    assert!(cache.is_empty());
    assert_eq!(cache.insert(b"x".to_vec(), 7), None);
    assert_eq!(cache.insert(b"x".to_vec(), 8), Some(7));
    assert_eq!(cache.len(), 1);
    assert_eq!(cache.remove(b"x"), Some(8));
    assert_eq!(cache.remove(b"x"), None);
    assert!(cache.is_empty());

    cache.put(b"1".to_vec(), 1);
    cache.put(b"2".to_vec(), 2);
    cache.put(b"3".to_vec(), 3);
    assert_eq!(cache.pop_lru(), Some((b"1".to_vec(), 1)));
    assert_eq!(cache.pop_mru(), Some((b"3".to_vec(), 3)));
    assert_eq!(cache.len(), 1);
    cache.clear();
    assert!(cache.is_empty());
    assert_eq!(cache.pop_lru(), None);
    assert_eq!(cache.pop_mru(), None);
    assert_eq!(cache.lru(), None);
    assert_eq!(cache.mru(), None);
}

// Shrinking the capacity silently drops entries from the LRU end.
#[test]
fn set_capacity_drops_lru() {
    let mut cache: Raw<i32> = Raw::new(4);
    cache.put(b"1".to_vec(), 1);
    cache.put(b"2".to_vec(), 2);
    cache.put(b"3".to_vec(), 3);
    cache.put(b"4".to_vec(), 4);
    cache.set_capacity(2);
    assert_eq!(cache.capacity(), 2);
    assert_eq!(cache.len(), 2);
    assert!(!cache.contains_key(b"1"));
    assert!(!cache.contains_key(b"2"));
    assert!(cache.contains_key(b"3"));
    assert!(cache.contains_key(b"4"));
}

// Capacity 1: an overwrite keeps one resident entry; a direct indexed write
// is observed by the next get.
#[test]
fn overwrite_then_direct_write() {
    let mut cache: Raw<i32> = Raw::new(1);
    cache.put(b"1".to_vec(), 10);
    cache.put(b"1".to_vec(), 19);
    assert_eq!(cache.get(b"1"), Some(&mut 19));
    assert_eq!(cache.len(), 1);

    cache.put(b"3".to_vec(), 30);
    *cache.index_mut(b"3") = 20;
    assert_eq!(cache.get(b"3"), Some(&mut 20));
    assert_eq!(cache.len(), 1);
}
