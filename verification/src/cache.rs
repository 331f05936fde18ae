//! The bounded LRU cache: a recency map under a fixed capacity, and the two
//! ownership wrappers that hand cached values out as reference-counted
//! pointers (exclusive `Rc` or thread-shared `Arc`).

use vstd::prelude::*;
use std::rc::Rc;
use std::sync::Arc;
use crate::bytes::Bytes;
use crate::recency::RecencyMap;
use crate::recency::distinct_keys;
use crate::recency::has_key;
use crate::recency::key_index;
use crate::recency::lemma_touch;
use crate::recency::remove_key;
use crate::recency::touch;
use crate::recency::value_of;

verus! {

/// How many entries `s` loses when trimmed to hold at most `cap`.
pub open spec fn overflow<V>(s: Seq<(Seq<u8>, V)>, cap: nat) -> int {
    if s.len() > cap {
        s.len() - cap
    } else {
        0
    }
}

/// A raw LRU cache: a recency map that `put` keeps within a fixed capacity.
pub struct Raw<V> {
    map: RecencyMap<V>,
    cap: usize,
}

impl<V> View for Raw<V> {
    type V = Seq<(Seq<u8>, V)>;

    closed spec fn view(&self) -> Seq<(Seq<u8>, V)> {
        self.map@
    }
}

impl<V> Raw<V> {
    /// Well-formed: no key is resident twice.
    pub open spec fn wf(&self) -> bool {
        distinct_keys(self@)
    }

    /// The capacity the cache was given.
    pub closed spec fn cap(&self) -> nat {
        self.cap as nat
    }

    /// An empty cache that `put` keeps at no more than `cap` entries.
    pub fn new(cap: usize) -> (r: Raw<V>)
        ensures
            r.wf(),
            r@ == Seq::<(Seq<u8>, V)>::empty(),
            r.cap() == cap,
    {
        Raw { map: RecencyMap::new(), cap }
    }

    /// The number of resident entries.
    pub fn len(&self) -> (r: usize)
        ensures
            r == self@.len(),
    {
        self.map.len()
    }

    /// Whether the cache holds no entry.
    pub fn is_empty(&self) -> (r: bool)
        ensures
            r == (self@.len() == 0),
    {
        self.map.is_empty()
    }

    /// The maximum number of entries `put` leaves resident.
    pub fn capacity(&self) -> (r: usize)
        ensures
            r == self.cap(),
    {
        self.cap
    }

    /// Drop every resident entry.
    pub fn clear(&mut self)
        ensures
            final(self)@ == Seq::<(Seq<u8>, V)>::empty(),
            final(self).wf(),
            final(self).cap() == old(self).cap(),
    {
        self.map.clear();
    }

    /// Whether `k` is resident. Leaves the recency order alone.
    pub fn contains_key(&self, k: &[u8]) -> (r: bool)
        requires
            self.wf(),
        ensures
            r == has_key(self@, k@),
    {
        self.map.contains_key(k)
    }

    /// Raw insert: bind `k` at the most-recently-used end and return the
    /// value any earlier binding held. Does not enforce the capacity; use
    /// `put` for that.
    pub fn insert(&mut self, k: Bytes, v: V) -> (r: Option<V>)
        requires
            old(self).wf(),
        ensures
            final(self).wf(),
            final(self)@ == touch(old(self)@, k@, v),
            final(self).cap() == old(self).cap(),
            match r {
                Some(w) => has_key(old(self)@, k@) && w == value_of(old(self)@, k@),
                None => !has_key(old(self)@, k@),
            },
    {
        self.map.insert(k, v)
    }

    /// Remove the entry binding `k`, returning its value.
    pub fn remove(&mut self, k: &[u8]) -> (r: Option<V>)
        requires
            old(self).wf(),
        ensures
            final(self).wf(),
            final(self)@ == remove_key(old(self)@, k@),
            final(self).cap() == old(self).cap(),
            match r {
                Some(w) => has_key(old(self)@, k@) && w == value_of(old(self)@, k@),
                None => !has_key(old(self)@, k@),
            },
    {
        self.map.remove(k)
    }

    /// Shrink or grow the capacity, silently dropping least-recently-used
    /// entries until the resident count fits. Dropped entries are not
    /// returned, so nothing is written back for them.
    pub fn set_capacity(&mut self, capacity: usize)
        requires
            old(self).wf(),
        ensures
            final(self).wf(),
            final(self).cap() == capacity,
            final(self)@ == old(self)@.skip(overflow(old(self)@, capacity as nat)),
    {
        let ghost s0 = self@;
        let ghost d = overflow(s0, capacity as nat);
        proof {
            assert(s0.skip(0) =~= s0);
            assert(0 <= 0 <= d && self@ == s0.skip(0) && (self@.len() > capacity ==> 0 < d));
        }
        while self.map.len() > capacity
            invariant
                self.wf(),
                d == overflow(s0, capacity as nat),
                exists|j: int|
                    0 <= j <= d && self@ == s0.skip(j) && (self@.len() > capacity ==> j < d),
            decreases self@.len(),
        {
            let ghost j = choose|j: int|
                0 <= j <= d && self@ == s0.skip(j) && (self@.len() > capacity ==> j < d);
            self.map.pop_front();
            proof {
                vstd::seq_lib::lemma_seq_skip_of_skip(s0, j, 1);
                assert(s0.skip(j).skip(1) =~= s0.skip(j + 1));
                assert(0 <= j + 1 <= d && self@ == s0.skip(j + 1) && (self@.len() > capacity ==> j
                    + 1 < d));
            }
        }
        self.cap = capacity;
        proof {
            let j = choose|j: int|
                0 <= j <= d && self@ == s0.skip(j) && (self@.len() > capacity ==> j < d);
            assert(self@.len() == s0.len() - j);
            assert(j == d);
        }
    }

    /// On a hit, promote `k` to the most-recently-used end and hand out
    /// mutable access to its value; on a miss nothing changes. Never evicts.
    pub fn get(&mut self, k: &[u8]) -> (r: Option<&mut V>)
        requires
            old(self).wf(),
        ensures
            match r {
                Some(v) => has_key(old(self)@, k@) && *v == value_of(old(self)@, k@)
                    && final(self)@ == touch(old(self)@, k@, *final(v)) && final(self).wf()
                    && final(self).cap() == old(self).cap(),
                None => !has_key(old(self)@, k@) && *final(self) == *old(self),
            },
    {
        self.map.get_refresh(k)
    }

    /// Insert or overwrite `k` at the most-recently-used end; if the cache
    /// then exceeds its capacity, remove and return the least-recently-used
    /// entry. A cache within its capacity stays within it.
    pub fn put(&mut self, k: Bytes, v: V) -> (r: Option<(Bytes, V)>)
        requires
            old(self).wf(),
        ensures
            final(self).wf(),
            final(self).cap() == old(self).cap(),
            match r {
                Some(p) => touch(old(self)@, k@, v).len() > old(self).cap() && p.0@ == touch(
                    old(self)@,
                    k@,
                    v,
                )[0].0 && p.1 == touch(old(self)@, k@, v)[0].1 && final(self)@ == touch(
                    old(self)@,
                    k@,
                    v,
                ).skip(1),
                None => touch(old(self)@, k@, v).len() <= old(self).cap() && final(self)@ == touch(
                    old(self)@,
                    k@,
                    v,
                ),
            },
            old(self)@.len() <= old(self).cap() ==> final(self)@.len() <= old(self).cap(),
    {
        proof {
            lemma_touch(self@, k@, v);
        }
        self.map.insert(k, v);
        if self.map.len() > self.cap {
            self.map.pop_front()
        } else {
            None
        }
    }

    /// Peek the least recently used entry. Leaves the recency order alone.
    pub fn lru(&self) -> (r: Option<(&Bytes, &V)>)
        ensures
            match r {
                Some(p) => self@.len() > 0 && p.0@ == self@[0].0 && *p.1 == self@[0].1,
                None => self@.len() == 0,
            },
    {
        self.map.front()
    }

    /// Peek the most recently used entry. Leaves the recency order alone.
    pub fn mru(&self) -> (r: Option<(&Bytes, &V)>)
        ensures
            match r {
                Some(p) => self@.len() > 0 && p.0@ == self@.last().0 && *p.1 == self@.last().1,
                None => self@.len() == 0,
            },
    {
        self.map.back()
    }

    /// Remove and return the least recently used entry.
    pub fn pop_lru(&mut self) -> (r: Option<(Bytes, V)>)
        requires
            old(self).wf(),
        ensures
            final(self).wf(),
            final(self).cap() == old(self).cap(),
            match r {
                Some(p) => old(self)@.len() > 0 && p.0@ == old(self)@[0].0
                    && p.1 == old(self)@[0].1 && final(self)@ == old(self)@.skip(1),
                None => old(self)@.len() == 0 && *final(self) == *old(self),
            },
    {
        self.map.pop_front()
    }

    /// Remove and return the most recently used entry.
    pub fn pop_mru(&mut self) -> (r: Option<(Bytes, V)>)
        requires
            old(self).wf(),
        ensures
            final(self).wf(),
            final(self).cap() == old(self).cap(),
            match r {
                Some(p) => old(self)@.len() > 0 && p.0@ == old(self)@.last().0
                    && p.1 == old(self)@.last().1 && final(self)@ == old(self)@.drop_last(),
                None => old(self)@.len() == 0 && *final(self) == *old(self),
            },
    {
        self.map.pop_back()
    }

    /// The entry at position `i` of the recency order, least recently used
    /// first: the traversal the original iterator offered, without touching
    /// the recency order.
    pub fn entry_at(&self, i: usize) -> (r: (&Bytes, &V))
        requires
            i < self@.len(),
        ensures
            r.0@ == self@[i as int].0,
            *r.1 == self@[i as int].1,
    {
        self.map.entry_at(i)
    }

    /// Mutable access to the value at position `i` of the recency order:
    /// the positional mutable traversal the original mutable iterator
    /// offered. Leaves the recency order alone.
    pub fn value_at_mut(&mut self, i: usize) -> (r: &mut V)
        requires
            old(self).wf(),
            i < old(self)@.len(),
        ensures
            *r == old(self)@[i as int].1,
            final(self).wf(),
            final(self).cap() == old(self).cap(),
            final(self)@ == old(self)@.update(i as int, (old(self)@[i as int].0, *final(r))),
    {
        self.map.value_at_mut(i)
    }

    /// Read the value bound to `k`; the key must be resident. Leaves the
    /// recency order alone.
    pub fn index(&self, k: &[u8]) -> (r: &V)
        requires
            self.wf(),
            has_key(self@, k@),
        ensures
            *r == value_of(self@, k@),
    {
        match self.map.get(k) {
            Some(v) => v,
            None => unreached(),
        }
    }

    /// Mutable access to the value bound to `k`; the key must be resident.
    /// Leaves the recency order alone.
    pub fn index_mut(&mut self, k: &[u8]) -> (r: &mut V)
        requires
            old(self).wf(),
            has_key(old(self)@, k@),
        ensures
            *r == value_of(old(self)@, k@),
            final(self).wf(),
            final(self).cap() == old(self).cap(),
            final(self)@ == old(self)@.update(key_index(old(self)@, k@), (k@, *final(r))),
    {
        match self.map.get_mut(k) {
            Some(v) => v,
            None => unreached(),
        }
    }
}

/// The capability the two ownership wrappers share: get and put over a
/// bounded LRU cache whose values are handed out as refcounted pointers.
pub trait Cache<V>: Sized {
    /// The resident entries, least recently used first.
    spec fn entries(&self) -> Seq<(Seq<u8>, V)>;

    /// The capacity the wrapper enforces; at least one.
    spec fn cap(&self) -> nat;

    /// The wrapper's invariant.
    spec fn inv(&self) -> bool;

    /// The invariant keeps resident keys distinct and the capacity positive.
    proof fn inv_properties(&self)
        requires
            self.inv(),
        ensures
            distinct_keys(self.entries()),
            self.cap() > 0,
    ;

    /// Return a handle to the value bound to `k`, promoting `k` to the
    /// most-recently-used end. Never changes which keys are resident.
    fn get(&mut self, k: &[u8]) -> (r: Option<V>)
        requires
            old(self).inv(),
        ensures
            final(self).inv(),
            final(self).cap() == old(self).cap(),
            match r {
                Some(v) => has_key(old(self).entries(), k@) && v == value_of(
                    old(self).entries(),
                    k@,
                ) && final(self).entries() == touch(old(self).entries(), k@, v),
                None => !has_key(old(self).entries(), k@) && *final(self) == *old(self),
            },
    ;

    /// Insert or overwrite `k`, returning the entry evicted to make room,
    /// if the capacity forced one out.
    fn put(&mut self, k: Bytes, v: V) -> (r: Option<(Bytes, V)>)
        requires
            old(self).inv(),
        ensures
            final(self).inv(),
            final(self).cap() == old(self).cap(),
            match r {
                Some(p) => touch(old(self).entries(), k@, v).len() > old(self).cap() && p.0@
                    == touch(old(self).entries(), k@, v)[0].0 && p.1 == touch(
                    old(self).entries(),
                    k@,
                    v,
                )[0].1 && final(self).entries() == touch(old(self).entries(), k@, v).skip(1),
                None => touch(old(self).entries(), k@, v).len() <= old(self).cap() && final(self).entries() == touch(old(self).entries(), k@, v),
            },
            old(self).entries().len() <= old(self).cap() ==> final(self).entries().len() <= old(self).cap(),
    ;
}

/// Relies on std's `Rc::clone`: a second handle to the same allocation,
/// equal as a value to the handle cloned.
#[verifier::external_body]
pub(crate) fn rc_clone<T>(rc: &Rc<T>) -> (r: Rc<T>)
    ensures
        r == *rc,
{
    Rc::clone(rc)
}

/// Relies on std's `Arc::clone`: a second handle to the same allocation,
/// equal as a value to the handle cloned.
#[verifier::external_body]
pub(crate) fn arc_clone<T>(arc: &Arc<T>) -> (r: Arc<T>)
    ensures
        r == *arc,
{
    Arc::clone(arc)
}

/// The exclusive ownership wrapper: cached values are `Rc` pointers meant
/// for a single thread, shared by bumping the reference count.
pub struct Single<V> {
    raw: Raw<Rc<V>>,
}

/// The thread-shared ownership wrapper: cached values are `Arc` pointers.
/// Serializing concurrent access is the caller's concern; the wrapper's own
/// operations take the cache exclusively.
pub struct Shared<V> {
    raw: Raw<Arc<V>>,
}

impl<V> Single<V> {
    /// Wrap a raw cache, coercing a zero capacity up to one: the cache must
    /// always be able to hold the entry currently being fetched.
    pub fn new(raw: Raw<Rc<V>>) -> (r: Single<V>)
        requires
            raw.wf(),
        ensures
            r.inv(),
            raw.cap() > 0 ==> r.cap() == raw.cap() && r.entries() == raw@,
            raw.cap() == 0 ==> r.cap() == 1 && r.entries() == raw@.skip(overflow(raw@, 1)),
    {
        let mut raw = raw;
        if raw.capacity() == 0 {
            raw.set_capacity(1);
        }
        Single { raw }
    }
}

impl<V> Cache<Rc<V>> for Single<V> {
    closed spec fn entries(&self) -> Seq<(Seq<u8>, Rc<V>)> {
        self.raw@
    }

    closed spec fn cap(&self) -> nat {
        self.raw.cap()
    }

    closed spec fn inv(&self) -> bool {
        self.raw.wf() && self.raw.cap() > 0
    }

    proof fn inv_properties(&self) {
    }

    fn get(&mut self, k: &[u8]) -> (r: Option<Rc<V>>) {
        match self.raw.get(k) {
            Some(p) => {
                let c = rc_clone(&*p);
                Some(c)
            },
            None => None,
        }
    }

    fn put(&mut self, k: Bytes, v: Rc<V>) -> (r: Option<(Bytes, Rc<V>)>) {
        self.raw.put(k, v)
    }
}

impl<V> Shared<V> {
    /// Wrap a raw cache, coercing a zero capacity up to one: the cache must
    /// always be able to hold the entry currently being fetched.
    pub fn new(raw: Raw<Arc<V>>) -> (r: Shared<V>)
        requires
            raw.wf(),
        ensures
            r.inv(),
            raw.cap() > 0 ==> r.cap() == raw.cap() && r.entries() == raw@,
            raw.cap() == 0 ==> r.cap() == 1 && r.entries() == raw@.skip(overflow(raw@, 1)),
    {
        let mut raw = raw;
        if raw.capacity() == 0 {
            raw.set_capacity(1);
        }
        Shared { raw }
    }
}

impl<V> Cache<Arc<V>> for Shared<V> {
    closed spec fn entries(&self) -> Seq<(Seq<u8>, Arc<V>)> {
        self.raw@
    }

    closed spec fn cap(&self) -> nat {
        self.raw.cap()
    }

    closed spec fn inv(&self) -> bool {
        self.raw.wf() && self.raw.cap() > 0
    }

    proof fn inv_properties(&self) {
    }

    fn get(&mut self, k: &[u8]) -> (r: Option<Arc<V>>) {
        match self.raw.get(k) {
            Some(p) => {
                let c = arc_clone(&*p);
                Some(c)
            },
            None => None,
        }
    }

    fn put(&mut self, k: Bytes, v: Arc<V>) -> (r: Option<(Bytes, Arc<V>)>) {
        self.raw.put(k, v)
    }
}

impl<V> Single<V> {
    /// The number of resident entries, for the read-only traversal the
    /// write-back snapshot makes.
    pub fn count(&self) -> (r: usize)
        ensures
            r == self.entries().len(),
    {
        self.raw.len()
    }

    /// The entry at position `i` of the recency order, least recently used
    /// first. Leaves the recency order alone.
    pub fn entry_at(&self, i: usize) -> (r: (&Bytes, &Rc<V>))
        requires
            i < self.entries().len(),
        ensures
            r.0@ == self.entries()[i as int].0,
            *r.1 == self.entries()[i as int].1,
    {
        self.raw.entry_at(i)
    }
}

impl<V> Shared<V> {
    /// The number of resident entries, for the read-only traversal the
    /// write-back snapshot makes.
    pub fn count(&self) -> (r: usize)
        ensures
            r == self.entries().len(),
    {
        self.raw.len()
    }

    /// The entry at position `i` of the recency order, least recently used
    /// first. Leaves the recency order alone.
    pub fn entry_at(&self, i: usize) -> (r: (&Bytes, &Arc<V>))
        requires
            i < self.entries().len(),
        ensures
            r.0@ == self.entries()[i as int].0,
            *r.1 == self.entries()[i as int].1,
    {
        self.raw.entry_at(i)
    }
}

} // verus!
