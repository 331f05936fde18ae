use std::rc::Rc;
use std::sync::Arc;
use wbcache::cache::Cache;
use wbcache::cache::Raw;
use wbcache::cache::Shared;
use wbcache::cache::Single;
use wbcache::Index;
use wbcache::SharedIndex;
use wbcache::Store;

fn store_with(entries: &[(&[u8], &[u8])]) -> Store {
    let mut store = Store::new();
    for (k, v) in entries {
        store.put(k.to_vec(), v.to_vec());
    }
    store
}

// Round trip: a fresh put is served from the cache without touching the
// store; once evicted, the store holds the value byte-exact.
#[test]
fn round_trip() {
    let mut index = Index::new(Store::new(), Raw::new(2));

    index.put(b"k", vec![7, 7]).unwrap();
    // Write-back: nothing persisted yet.
    assert_eq!(index.seek().next(b""), None);

    let got = index.get(b"k").unwrap().unwrap();
    assert_eq!(*got, vec![7, 7]);
    // The hit came from the cache; the store is still empty.
    assert_eq!(index.seek().next(b""), None);

    index.put(b"l", vec![8]).unwrap();
    index.put(b"m", vec![9]).unwrap(); // evicts "k", persisting it
    assert_eq!(index.seek().next(b"k").unwrap(), (b"k".to_vec(), vec![7, 7]));

    let back = index.get(b"k").unwrap().unwrap();
    assert_eq!(*back, vec![7, 7]);
}

// A key absent from cache and store is answered with nothing.
#[test]
fn get_absent() {
    let mut index = Index::new(store_with(&[(b"1", &[1])]), Raw::new(2));
    assert_eq!(index.get(b"2").unwrap(), None);
    assert_eq!(*index.get(b"1").unwrap().unwrap(), vec![1]);
}

// A zero capacity is coerced up to one: every stored key stays readable.
#[test]
fn zero_capacity_coerced() {
    let store = store_with(&[(b"1", &[1]), (b"2", &[2]), (b"3", &[3])]);
    let mut index = Index::new(store, Raw::new(0));

    let got1 = index.get(b"1").unwrap().unwrap();
    let got2 = index.get(b"2").unwrap().unwrap();
    let got3 = index.get(b"3").unwrap().unwrap();
    assert_eq!(*got1, vec![1]);
    assert_eq!(*got2, vec![2]);
    assert_eq!(*got3, vec![3]);
}

// Ownership sharing at capacity 1: handles share one allocation with the
// cache; copy-on-write detaches a mutated handle; eviction releases the
// cache's hold without touching outstanding handles.
#[test]
fn handle_sharing() {
    let store = store_with(&[(b"1", &[1]), (b"2", &[2]), (b"3", &[3])]);
    let mut index = Index::new(store, Raw::new(1));

    let got_a = index.get(b"1").unwrap().unwrap();
    let mut got_x = index.get(b"1").unwrap().unwrap();

    assert!(Rc::strong_count(&got_a) == 3); // cache, got_a and got_x
    Rc::make_mut(&mut got_x).push(42);
    assert!(Rc::strong_count(&got_a) == 2); // copy-on-write detached got_x
    assert!(Rc::strong_count(&got_x) == 1);
    assert_eq!(*got_a, vec![1]); // the other handle still sees the old value
    assert_eq!(*got_x, vec![1, 42]);

    let got_b = index.get(b"1").unwrap().unwrap();
    assert!(Rc::strong_count(&got_a) == 3); // cache, got_a and got_b
    assert!(Rc::strong_count(&got_b) == 3);

    let got_c = index.get(b"2").unwrap().unwrap(); // expires key "1"
    assert!(Rc::strong_count(&got_a) == 2); // got_a and got_b
    assert!(Rc::strong_count(&got_b) == 2);
    assert!(Rc::strong_count(&got_c) == 2); // cache and got_c

    let got_y = index.get(b"3").unwrap().unwrap(); // expires key "2"
    let got_d = index.get(b"3").unwrap().unwrap();
    assert!(Rc::strong_count(&got_c) == 1); // got_c only
    assert!(Rc::strong_count(&got_y) == 3); // cache, got_y and got_d

    index.put(b"3", vec![10, 0]).unwrap(); // overwrites the cached pointer
    assert!(Rc::strong_count(&got_d) == 2); // got_y and got_d only
    assert_eq!(*got_d, vec![3]); // the overwrite did not touch the handle
}

// Evicting the last handle-holder and dropping every handle releases the
// value: the count falls to one before the final drop.
#[test]
fn eviction_releases_cache_hold() {
    let mut index = Index::new(store_with(&[(b"1", &[1])]), Raw::new(1));
    let handle = index.get(b"1").unwrap().unwrap();
    assert_eq!(Rc::strong_count(&handle), 2); // cache and handle
    index.put(b"2", vec![2]).unwrap(); // evicts "1"
    assert_eq!(Rc::strong_count(&handle), 1); // the handle alone keeps it alive
}

// Snapshot persists every resident entry without evicting any.
#[test]
fn snapshot_persists_residents() {
    let mut index = Index::new(Store::new(), Raw::new(10));
    index.put(b"1", vec![1]).unwrap();
    index.put(b"2", vec![2]).unwrap();
    index.put(b"3", vec![3]).unwrap();
    assert_eq!(index.seek().next(b""), None); // nothing persisted yet

    index.snapshot().unwrap();

    assert_eq!(index.seek().next(b"1").unwrap(), (b"1".to_vec(), vec![1]));
    assert_eq!(index.seek().next(b"2").unwrap(), (b"2".to_vec(), vec![2]));
    assert_eq!(index.seek().next(b"3").unwrap(), (b"3".to_vec(), vec![3]));
    // The entries are still resident and readable after the checkpoint.
    let got = index.get(b"2").unwrap().unwrap();
    assert_eq!(*got, vec![2]);
}

// The shared index behaves like the exclusive one, over Arc handles.
#[test]
fn shared_index_ops() {
    let store = store_with(&[(b"1", &[1]), (b"2", &[2])]);
    let mut index = SharedIndex::new(store, Raw::new(1));

    let got_a = index.get(b"1").unwrap().unwrap();
    let got_b = index.get(b"1").unwrap().unwrap();
    assert_eq!(Arc::strong_count(&got_a), 3); // cache, got_a and got_b
    assert_eq!(*got_a, vec![1]);
    assert_eq!(*got_b, vec![1]);

    let got_c = index.get(b"2").unwrap().unwrap(); // expires key "1"
    assert_eq!(Arc::strong_count(&got_a), 2);
    assert_eq!(Arc::strong_count(&got_c), 2);

    index.put(b"9", vec![9]).unwrap(); // evicts "2", persisting it
    assert_eq!(index.seek().next(b"2").unwrap(), (b"2".to_vec(), vec![2]));
}

// The ownership wrappers hand out real clones: a second handle to the same
// allocation, not the cached pointer moved out.
#[test]
fn wrapper_clones_handles() {
    let mut single: Single<i32> = Single::new(Raw::new(1));
    assert_eq!(single.put(b"a".to_vec(), Rc::new(5)), None);
    let h = single.get(b"a").unwrap();
    assert_eq!(*h, 5);
    assert_eq!(Rc::strong_count(&h), 2); // cache and handle

    let mut shared: Shared<i32> = Shared::new(Raw::new(1));
    assert_eq!(shared.put(b"a".to_vec(), Arc::new(5)), None);
    let h2 = shared.get(b"a").unwrap();
    assert_eq!(*h2, 5);
    assert_eq!(Arc::strong_count(&h2), 2); // cache and handle
}
