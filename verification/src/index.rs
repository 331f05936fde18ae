//! The write-back index: one logical byte-keyed map backed by the ordered
//! store, with a bounded in-memory hot set. A miss loads from the store; an
//! eviction persists the evicted entry before the call returns; `snapshot`
//! persists every resident entry. Durability is eviction-driven: a `put`
//! writes to the cache only.

use vstd::prelude::*;
use std::rc::Rc;
use std::sync::Arc;
use crate::bytes::Bytes;
use crate::bytes::bytes_clone;
use crate::cache::Cache;
use crate::cache::Raw;
use crate::cache::Shared;
use crate::cache::Single;
use crate::cache::arc_clone;
use crate::cache::rc_clone;
use crate::recency::distinct_keys;
use crate::recency::has_key;
use crate::recency::key_index;
use crate::recency::lemma_key_at;
use crate::recency::lemma_touch;
use crate::recency::touch;
use crate::recency::value_of;
use crate::store::Error;
use crate::store::Store;
use crate::store::Seek;
use crate::store::store_updated;

verus! {

/// Does one of the first `n` entries of `c` bind the key `k`?
spec fn key_in_prefix<V>(c: Seq<(Seq<u8>, V)>, n: int, k: Seq<u8>) -> bool {
    exists|j: int| 0 <= j < n && c[j].0 == k
}

/// A sequence of distinct-key entries keeps its last entry's binding when
/// the first entry is dropped.
pub proof fn lemma_tail_keeps_last<V>(t: Seq<(Seq<u8>, V)>)
    requires
        distinct_keys(t),
        t.len() >= 2,
    ensures
        distinct_keys(t.skip(1)),
        has_key(t.skip(1), t.last().0),
        value_of(t.skip(1), t.last().0) == t.last().1,
{
    let u = t.skip(1);
    assert forall|i2: int, j2: int| 0 <= i2 < j2 < u.len() implies u[i2].0 != u[j2].0 by {
        assert(t[i2 + 1].0 != t[j2 + 1].0);
    }
    assert(u[u.len() - 1] == t[t.len() - 1]);
    lemma_key_at(u, t.last().0, u.len() - 1);
}

/// The write-back index over exclusively owned (`Rc`) cache values.
pub struct Index {
    store: Store,
    cache: Single<Bytes>,
}

impl Index {
    /// The resident cache entries, least recently used first.
    pub closed spec fn cache_entries(&self) -> Seq<(Seq<u8>, Rc<Bytes>)> {
        self.cache.entries()
    }

    /// The store's bindings, sorted by key.
    pub closed spec fn store_map(&self) -> Seq<(Seq<u8>, Seq<u8>)> {
        self.store@
    }

    /// The cache capacity the index was built with (at least one).
    pub closed spec fn cap(&self) -> nat {
        self.cache.cap()
    }

    /// Well-formed: the store is sorted and the cache invariant holds.
    pub closed spec fn wf(&self) -> bool {
        self.store.wf() && self.cache.inv()
    }

    /// A well-formed index has distinct resident keys and room for at least
    /// one entry.
    pub proof fn wf_properties(&self)
        requires
            self.wf(),
        ensures
            distinct_keys(self.cache_entries()),
            self.cap() > 0,
    {
        self.cache.inv_properties();
    }

    /// Couple a pre-sized raw cache to a store. A zero capacity is coerced
    /// up to one: the cache must be able to hold the entry being fetched.
    pub fn new(store: Store, raw: Raw<Rc<Bytes>>) -> (r: Index)
        requires
            store.wf(),
            raw.wf(),
        ensures
            r.wf(),
            r.store_map() == store@,
            raw.cap() > 0 ==> r.cap() == raw.cap() && r.cache_entries() == raw@,
            raw@.len() == 0 ==> r.cache_entries().len() == 0,
    {
        let cache = Single::new(raw);
        Index { store, cache }
    }

    /// Look `key` up. A cache hit returns the cached handle and touches
    /// neither the store nor the resident set. A miss reads the store; a
    /// stored value is wrapped, entered into the cache, and handed back,
    /// after any entry evicted to make room has been persisted. A key absent
    /// from both is answered with nothing.
    pub fn get(&mut self, key: &[u8]) -> (r: Result<Option<Rc<Bytes>>, Error>)
        requires
            old(self).wf(),
        ensures
            final(self).wf(),
            final(self).cap() == old(self).cap(),
            ({
                let c0 = old(self).cache_entries();
                let st0 = old(self).store_map();
                match r {
                    Ok(opt) => {
                        if has_key(c0, key@) {
                            opt == Some(value_of(c0, key@)) && final(self).cache_entries()
                                == touch(c0, key@, value_of(c0, key@)) && final(self).store_map()
                                == st0
                        } else if has_key(st0, key@) {
                            opt matches Some(p) && p@ == value_of(st0, key@) && ({
                                let t = touch(c0, key@, p);
                                if t.len() > old(self).cap() {
                                    final(self).cache_entries() == t.skip(1) && store_updated(
                                        st0,
                                        final(self).store_map(),
                                        t[0].0,
                                        t[0].1@,
                                    )
                                } else {
                                    final(self).cache_entries() == t && final(self).store_map()
                                        == st0
                                }
                            })
                        } else {
                            opt is None && final(self).cache_entries() == c0
                                && final(self).store_map() == st0
                        }
                    },
                    Err(_) => false,
                }
            }),
    {
        let cached = self.cache.get(key);
        match cached {
            Some(p) => Ok(Some(p)),
            None => {
                match self.store.get(key) {
                    Some(loaded) => {
                        let ptr = Rc::new(loaded);
                        let dropped = self.cache.put(bytes_clone(key), rc_clone(&ptr));
                        match dropped {
                            Some(d) => {
                                let val = bytes_clone(d.1.as_slice());
                                self.store.put(d.0, val);
                            },
                            None => {},
                        }
                        Ok(Some(ptr))
                    },
                    None => Ok(None),
                }
            },
        }
    }

    /// Bind `key` to `value` in the cache; the new value is not persisted
    /// until it is evicted or `snapshot` runs. Any entry evicted to make
    /// room is persisted before the call returns.
    pub fn put(&mut self, key: &[u8], value: Bytes) -> (r: Result<(), Error>)
        requires
            old(self).wf(),
        ensures
            final(self).wf(),
            final(self).cap() == old(self).cap(),
            r is Ok,
            has_key(final(self).cache_entries(), key@),
            value_of(final(self).cache_entries(), key@)@ == value@,
            ({
                let c0 = old(self).cache_entries();
                let st0 = old(self).store_map();
                let t = touch(c0, key@, value_of(final(self).cache_entries(), key@));
                if t.len() > old(self).cap() {
                    final(self).cache_entries() == t.skip(1) && store_updated(
                        st0,
                        final(self).store_map(),
                        t[0].0,
                        t[0].1@,
                    )
                } else {
                    final(self).cache_entries() == t && final(self).store_map() == st0
                }
            }),
    {
        proof {
            self.cache.inv_properties();
        }
        let ghost c0 = self.cache_entries();
        let ptr = Rc::new(value);
        let dropped = self.cache.put(bytes_clone(key), ptr);
        proof {
            lemma_touch(c0, key@, Rc::new(value));
            let t = touch(c0, key@, Rc::new(value));
            if t.len() > self.cap() {
                lemma_tail_keeps_last(t);
            }
        }
        match dropped {
            Some(d) => {
                let val = bytes_clone(d.1.as_slice());
                self.store.put(d.0, val);
            },
            None => {},
        }
        Ok(())
    }

    /// Persist every resident entry to the store, least recently used
    /// first, leaving the cache untouched: the explicit consistency
    /// checkpoint. Bindings of keys not resident are untouched.
    pub fn snapshot(&mut self) -> (r: Result<(), Error>)
        requires
            old(self).wf(),
        ensures
            final(self).wf(),
            final(self).cap() == old(self).cap(),
            r is Ok,
            final(self).cache_entries() == old(self).cache_entries(),
            forall|k2: Seq<u8>|
                #[trigger] has_key(old(self).cache_entries(), k2) ==> has_key(
                    final(self).store_map(),
                    k2,
                ) && value_of(final(self).store_map(), k2) == value_of(
                    old(self).cache_entries(),
                    k2,
                )@,
            forall|k2: Seq<u8>|
                !has_key(old(self).cache_entries(), k2) ==> #[trigger] has_key(
                    final(self).store_map(),
                    k2,
                ) == has_key(old(self).store_map(), k2),
            forall|k2: Seq<u8>|
                !has_key(old(self).cache_entries(), k2) && has_key(old(self).store_map(), k2)
                    ==> #[trigger] value_of(final(self).store_map(), k2) == value_of(
                    old(self).store_map(),
                    k2,
                ),
    {
        proof {
            self.cache.inv_properties();
        }
        let ghost c0 = self.cache.entries();
        let ghost st0 = self.store@;
        let ghost cache0 = self.cache;
        let n = self.cache.count();
        let mut i: usize = 0;
        while i < n
            invariant
                self.store.wf(),
                self.cache == cache0,
                self.cache.inv(),
                self.cache.entries() == c0,
                self.cache.cap() == cache0.cap(),
                distinct_keys(c0),
                n == c0.len(),
                0 <= i <= n,
                forall|j: int|
                    0 <= j < i ==> #[trigger] has_key(self.store@, c0[j].0) && value_of(
                        self.store@,
                        c0[j].0,
                    ) == c0[j].1@,
                forall|k2: Seq<u8>|
                    !key_in_prefix(c0, i as int, k2) ==> #[trigger] has_key(self.store@, k2)
                        == has_key(st0, k2) && (has_key(st0, k2) ==> value_of(self.store@, k2)
                        == value_of(st0, k2)),
            decreases n - i,
        {
            let kc: Bytes;
            let vc: Bytes;
            {
                let p = self.cache.entry_at(i);
                kc = bytes_clone(p.0.as_slice());
                vc = bytes_clone(p.1.as_slice());
            }
            self.store.put(kc, vc);
            proof {
                assert forall|j: int|
                    0 <= j < i + 1 implies #[trigger] has_key(self.store@, c0[j].0) && value_of(
                    self.store@,
                    c0[j].0,
                ) == c0[j].1@ by {
                    if j < i {
                        assert(c0[j].0 != c0[i as int].0);
                    }
                }
                assert forall|k2: Seq<u8>| !key_in_prefix(c0, i + 1, k2) implies #[trigger] has_key(
                    self.store@,
                    k2,
                ) == has_key(st0, k2) && (has_key(st0, k2) ==> value_of(self.store@, k2)
                    == value_of(st0, k2)) by {
                    assert(!key_in_prefix(c0, i as int, k2));
                    assert(k2 != c0[i as int].0);
                }
            }
            i = i + 1;
        }
        proof {
            assert forall|k2: Seq<u8>| #[trigger] has_key(c0, k2) implies has_key(self.store@, k2)
                && value_of(self.store@, k2) == value_of(c0, k2)@ by {
                let j = key_index(c0, k2);
                assert(0 <= j < c0.len() && c0[j].0 == k2);
                lemma_key_at(c0, k2, j);
                assert(has_key(self.store@, c0[j].0));
            }
            assert forall|k2: Seq<u8>| !has_key(c0, k2) implies !key_in_prefix(
                c0,
                n as int,
                k2,
            ) by {
                if key_in_prefix(c0, n as int, k2) {
                    let j = choose|j: int| 0 <= j < n && c0[j].0 == k2;
                    assert(has_key(c0, k2));
                }
            }
            assert forall|k2: Seq<u8>|
                !has_key(c0, k2) && has_key(st0, k2) implies #[trigger] value_of(self.store@, k2)
                == value_of(st0, k2) by {
                assert(!key_in_prefix(c0, n as int, k2));
                assert(has_key(self.store@, k2) == has_key(st0, k2));
            }
        }
        Ok(())
    }

    /// The store's ordered-range cursor; the index does no caching for
    /// range scans.
    pub fn seek(&self) -> (r: Seek<'_>)
        requires
            self.wf(),
        ensures
            r.store@ == self.store_map(),
            r.store.wf(),
    {
        self.store.seek()
    }
}

/// The write-back index over thread-shared (`Arc`) cache values.
pub struct SharedIndex {
    store: Store,
    cache: Shared<Bytes>,
}

impl SharedIndex {
    /// The resident cache entries, least recently used first.
    pub closed spec fn cache_entries(&self) -> Seq<(Seq<u8>, Arc<Bytes>)> {
        self.cache.entries()
    }

    /// The store's bindings, sorted by key.
    pub closed spec fn store_map(&self) -> Seq<(Seq<u8>, Seq<u8>)> {
        self.store@
    }

    /// The cache capacity the index was built with (at least one).
    pub closed spec fn cap(&self) -> nat {
        self.cache.cap()
    }

    /// Well-formed: the store is sorted and the cache invariant holds.
    pub closed spec fn wf(&self) -> bool {
        self.store.wf() && self.cache.inv()
    }

    /// A well-formed index has distinct resident keys and room for at least
    /// one entry.
    pub proof fn wf_properties(&self)
        requires
            self.wf(),
        ensures
            distinct_keys(self.cache_entries()),
            self.cap() > 0,
    {
        self.cache.inv_properties();
    }

    /// Couple a pre-sized raw cache to a store. A zero capacity is coerced
    /// up to one: the cache must be able to hold the entry being fetched.
    pub fn new(store: Store, raw: Raw<Arc<Bytes>>) -> (r: SharedIndex)
        requires
            store.wf(),
            raw.wf(),
        ensures
            r.wf(),
            r.store_map() == store@,
            raw.cap() > 0 ==> r.cap() == raw.cap() && r.cache_entries() == raw@,
            raw@.len() == 0 ==> r.cache_entries().len() == 0,
    {
        let cache = Shared::new(raw);
        SharedIndex { store, cache }
    }

    /// Look `key` up. A cache hit returns the cached handle and touches
    /// neither the store nor the resident set. A miss reads the store; a
    /// stored value is wrapped, entered into the cache, and handed back,
    /// after any entry evicted to make room has been persisted. A key absent
    /// from both is answered with nothing.
    pub fn get(&mut self, key: &[u8]) -> (r: Result<Option<Arc<Bytes>>, Error>)
        requires
            old(self).wf(),
        ensures
            final(self).wf(),
            final(self).cap() == old(self).cap(),
            ({
                let c0 = old(self).cache_entries();
                let st0 = old(self).store_map();
                match r {
                    Ok(opt) => {
                        if has_key(c0, key@) {
                            opt == Some(value_of(c0, key@)) && final(self).cache_entries()
                                == touch(c0, key@, value_of(c0, key@)) && final(self).store_map()
                                == st0
                        } else if has_key(st0, key@) {
                            opt matches Some(p) && p@ == value_of(st0, key@) && ({
                                let t = touch(c0, key@, p);
                                if t.len() > old(self).cap() {
                                    final(self).cache_entries() == t.skip(1) && store_updated(
                                        st0,
                                        final(self).store_map(),
                                        t[0].0,
                                        t[0].1@,
                                    )
                                } else {
                                    final(self).cache_entries() == t && final(self).store_map()
                                        == st0
                                }
                            })
                        } else {
                            opt is None && final(self).cache_entries() == c0
                                && final(self).store_map() == st0
                        }
                    },
                    Err(_) => false,
                }
            }),
    {
        let cached = self.cache.get(key);
        match cached {
            Some(p) => Ok(Some(p)),
            None => {
                match self.store.get(key) {
                    Some(loaded) => {
                        let ptr = Arc::new(loaded);
                        let dropped = self.cache.put(bytes_clone(key), arc_clone(&ptr));
                        match dropped {
                            Some(d) => {
                                let val = bytes_clone(d.1.as_slice());
                                self.store.put(d.0, val);
                            },
                            None => {},
                        }
                        Ok(Some(ptr))
                    },
                    None => Ok(None),
                }
            },
        }
    }

    /// Bind `key` to `value` in the cache; the new value is not persisted
    /// until it is evicted or `snapshot` runs. Any entry evicted to make
    /// room is persisted before the call returns.
    pub fn put(&mut self, key: &[u8], value: Bytes) -> (r: Result<(), Error>)
        requires
            old(self).wf(),
        ensures
            final(self).wf(),
            final(self).cap() == old(self).cap(),
            r is Ok,
            has_key(final(self).cache_entries(), key@),
            value_of(final(self).cache_entries(), key@)@ == value@,
            ({
                let c0 = old(self).cache_entries();
                let st0 = old(self).store_map();
                let t = touch(c0, key@, value_of(final(self).cache_entries(), key@));
                if t.len() > old(self).cap() {
                    final(self).cache_entries() == t.skip(1) && store_updated(
                        st0,
                        final(self).store_map(),
                        t[0].0,
                        t[0].1@,
                    )
                } else {
                    final(self).cache_entries() == t && final(self).store_map() == st0
                }
            }),
    {
        proof {
            self.cache.inv_properties();
        }
        let ghost c0 = self.cache_entries();
        let ptr = Arc::new(value);
        let dropped = self.cache.put(bytes_clone(key), ptr);
        proof {
            lemma_touch(c0, key@, Arc::new(value));
            let t = touch(c0, key@, Arc::new(value));
            if t.len() > self.cap() {
                lemma_tail_keeps_last(t);
            }
        }
        match dropped {
            Some(d) => {
                let val = bytes_clone(d.1.as_slice());
                self.store.put(d.0, val);
            },
            None => {},
        }
        Ok(())
    }

    /// Persist every resident entry to the store, least recently used
    /// first, leaving the cache untouched: the explicit consistency
    /// checkpoint. Bindings of keys not resident are untouched.
    pub fn snapshot(&mut self) -> (r: Result<(), Error>)
        requires
            old(self).wf(),
        ensures
            final(self).wf(),
            final(self).cap() == old(self).cap(),
            r is Ok,
            final(self).cache_entries() == old(self).cache_entries(),
            forall|k2: Seq<u8>|
                #[trigger] has_key(old(self).cache_entries(), k2) ==> has_key(
                    final(self).store_map(),
                    k2,
                ) && value_of(final(self).store_map(), k2) == value_of(
                    old(self).cache_entries(),
                    k2,
                )@,
            forall|k2: Seq<u8>|
                !has_key(old(self).cache_entries(), k2) ==> #[trigger] has_key(
                    final(self).store_map(),
                    k2,
                ) == has_key(old(self).store_map(), k2),
            forall|k2: Seq<u8>|
                !has_key(old(self).cache_entries(), k2) && has_key(old(self).store_map(), k2)
                    ==> #[trigger] value_of(final(self).store_map(), k2) == value_of(
                    old(self).store_map(),
                    k2,
                ),
    {
        proof {
            self.cache.inv_properties();
        }
        let ghost c0 = self.cache.entries();
        let ghost st0 = self.store@;
        let ghost cache0 = self.cache;
        let n = self.cache.count();
        let mut i: usize = 0;
        while i < n
            invariant
                self.store.wf(),
                self.cache == cache0,
                self.cache.inv(),
                self.cache.entries() == c0,
                self.cache.cap() == cache0.cap(),
                distinct_keys(c0),
                n == c0.len(),
                0 <= i <= n,
                forall|j: int|
                    0 <= j < i ==> #[trigger] has_key(self.store@, c0[j].0) && value_of(
                        self.store@,
                        c0[j].0,
                    ) == c0[j].1@,
                forall|k2: Seq<u8>|
                    !key_in_prefix(c0, i as int, k2) ==> #[trigger] has_key(self.store@, k2)
                        == has_key(st0, k2) && (has_key(st0, k2) ==> value_of(self.store@, k2)
                        == value_of(st0, k2)),
            decreases n - i,
        {
            let kc: Bytes;
            let vc: Bytes;
            {
                let p = self.cache.entry_at(i);
                kc = bytes_clone(p.0.as_slice());
                vc = bytes_clone(p.1.as_slice());
            }
            self.store.put(kc, vc);
            proof {
                assert forall|j: int|
                    0 <= j < i + 1 implies #[trigger] has_key(self.store@, c0[j].0) && value_of(
                    self.store@,
                    c0[j].0,
                ) == c0[j].1@ by {
                    if j < i {
                        assert(c0[j].0 != c0[i as int].0);
                    }
                }
                assert forall|k2: Seq<u8>| !key_in_prefix(c0, i + 1, k2) implies #[trigger] has_key(
                    self.store@,
                    k2,
                ) == has_key(st0, k2) && (has_key(st0, k2) ==> value_of(self.store@, k2)
                    == value_of(st0, k2)) by {
                    assert(!key_in_prefix(c0, i as int, k2));
                    assert(k2 != c0[i as int].0);
                }
            }
            i = i + 1;
        }
        proof {
            assert forall|k2: Seq<u8>| #[trigger] has_key(c0, k2) implies has_key(self.store@, k2)
                && value_of(self.store@, k2) == value_of(c0, k2)@ by {
                let j = key_index(c0, k2);
                assert(0 <= j < c0.len() && c0[j].0 == k2);
                lemma_key_at(c0, k2, j);
                assert(has_key(self.store@, c0[j].0));
            }
            assert forall|k2: Seq<u8>| !has_key(c0, k2) implies !key_in_prefix(
                c0,
                n as int,
                k2,
            ) by {
                if key_in_prefix(c0, n as int, k2) {
                    let j = choose|j: int| 0 <= j < n && c0[j].0 == k2;
                    assert(has_key(c0, k2));
                }
            }
            assert forall|k2: Seq<u8>|
                !has_key(c0, k2) && has_key(st0, k2) implies #[trigger] value_of(self.store@, k2)
                == value_of(st0, k2) by {
                assert(!key_in_prefix(c0, n as int, k2));
                assert(has_key(self.store@, k2) == has_key(st0, k2));
            }
        }
        Ok(())
    }

    /// The store's ordered-range cursor; the index does no caching for
    /// range scans.
    pub fn seek(&self) -> (r: Seek<'_>)
        requires
            self.wf(),
        ensures
            r.store@ == self.store_map(),
            r.store.wf(),
    {
        self.store.seek()
    }
}


} // verus!
