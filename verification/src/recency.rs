//! The recency map: an insertion-ordered map from byte-string keys to values
//! with promote-on-access reordering. Index 0 holds the least recently
//! touched entry, the last index the most recently touched one.

use vstd::prelude::*;
use crate::bytes::Bytes;
use crate::bytes::bytes_eq;

verus! {

/// Does some entry of `s` bind the key `k`?
pub open spec fn has_key<V>(s: Seq<(Seq<u8>, V)>, k: Seq<u8>) -> bool {
    exists|i: int| 0 <= i < s.len() && s[i].0 == k
}

/// The position of the entry binding `k` (meaningful only when `has_key`).
pub open spec fn key_index<V>(s: Seq<(Seq<u8>, V)>, k: Seq<u8>) -> int {
    choose|i: int| 0 <= i < s.len() && s[i].0 == k
}

/// The value bound to `k` (meaningful only when `has_key`).
pub open spec fn value_of<V>(s: Seq<(Seq<u8>, V)>, k: Seq<u8>) -> V {
    s[key_index(s, k)].1
}

/// Every key occurs at most once.
pub open spec fn distinct_keys<V>(s: Seq<(Seq<u8>, V)>) -> bool {
    forall|i: int, j: int| 0 <= i < j < s.len() ==> s[i].0 != s[j].0
}

/// The entry binding `k` removed, if one exists.
pub open spec fn remove_key<V>(s: Seq<(Seq<u8>, V)>, k: Seq<u8>) -> Seq<(Seq<u8>, V)> {
    if has_key(s, k) {
        s.remove(key_index(s, k))
    } else {
        s
    }
}

/// `k` bound to `v` at the most-recently-used end, any earlier binding of
/// `k` gone, every other entry kept in order.
pub open spec fn touch<V>(s: Seq<(Seq<u8>, V)>, k: Seq<u8>, v: V) -> Seq<(Seq<u8>, V)> {
    remove_key(s, k).push((k, v))
}

/// In a sequence with distinct keys, the entry binding `k` at position `i`
/// is the only one, so `key_index` finds exactly it.
pub proof fn lemma_key_at<V>(s: Seq<(Seq<u8>, V)>, k: Seq<u8>, i: int)
    requires
        distinct_keys(s),
        0 <= i < s.len(),
        s[i].0 == k,
    ensures
        has_key(s, k),
        key_index(s, k) == i,
        value_of(s, k) == s[i].1,
{
    assert(has_key(s, k));
    let j = key_index(s, k);
    assert(0 <= j < s.len() && s[j].0 == k);
    if i < j {
        assert(s[i].0 != s[j].0);
    } else if j < i {
        assert(s[j].0 != s[i].0);
    }
}

/// `remove_key` keeps keys distinct and removes exactly the binding of `k`.
pub proof fn lemma_remove_key_distinct<V>(s: Seq<(Seq<u8>, V)>, k: Seq<u8>)
    requires
        distinct_keys(s),
    ensures
        distinct_keys(remove_key(s, k)),
        !has_key(remove_key(s, k), k),
        remove_key(s, k).len() == if has_key(s, k) {
            s.len() - 1
        } else {
            s.len() as int
        },
{
    if has_key(s, k) {
        let i = key_index(s, k);
        assert(0 <= i < s.len() && s[i].0 == k);
        let r = s.remove(i);
        s.remove_ensures(i);
        assert forall|i2: int, j2: int| 0 <= i2 < j2 < r.len() implies r[i2].0 != r[j2].0 by {
            if j2 < i {
                assert(r[i2] == s[i2] && r[j2] == s[j2]);
            } else if i2 >= i {
                assert(r[i2] == s[i2 + 1] && r[j2] == s[j2 + 1]);
            } else {
                assert(r[i2] == s[i2] && r[j2] == s[j2 + 1]);
            }
        }
        assert forall|i2: int| 0 <= i2 < r.len() implies r[i2].0 != k by {
            if i2 < i {
                assert(r[i2] == s[i2]);
                lemma_key_at(s, s[i2].0, i2);
            } else {
                assert(r[i2] == s[i2 + 1]);
                lemma_key_at(s, s[i2 + 1].0, i2 + 1);
            }
        }
    }
}

/// The effect of `remove_key` on one other key `k2`: its binding is kept.
proof fn lemma_remove_key_one<V>(s: Seq<(Seq<u8>, V)>, k: Seq<u8>, k2: Seq<u8>)
    requires
        distinct_keys(s),
        k2 != k,
    ensures
        has_key(remove_key(s, k), k2) == has_key(s, k2),
        has_key(s, k2) ==> value_of(remove_key(s, k), k2) == value_of(s, k2),
{
    lemma_remove_key_distinct(s, k);
    if has_key(s, k) {
        let i = key_index(s, k);
        assert(0 <= i < s.len() && s[i].0 == k);
        let r = s.remove(i);
        s.remove_ensures(i);
        if has_key(s, k2) {
            let i2 = key_index(s, k2);
            assert(0 <= i2 < s.len() && s[i2].0 == k2);
            if i2 < i {
                assert(r[i2] == s[i2]);
                lemma_key_at(r, k2, i2);
            } else {
                assert(i2 > i);
                assert(r[i2 - 1] == s[i2]);
                lemma_key_at(r, k2, i2 - 1);
            }
            lemma_key_at(s, k2, i2);
        } else {
            if has_key(r, k2) {
                let i2 = key_index(r, k2);
                assert(0 <= i2 < r.len() && r[i2].0 == k2);
                if i2 < i {
                    assert(r[i2] == s[i2]);
                } else {
                    assert(r[i2] == s[i2 + 1]);
                }
                assert(has_key(s, k2));
            }
        }
    }
}

/// Removing the entry for `k` keeps every other binding: membership, value
/// and distinctness are preserved, and `k` itself is gone.
pub proof fn lemma_remove_key<V>(s: Seq<(Seq<u8>, V)>, k: Seq<u8>)
    requires
        distinct_keys(s),
    ensures
        distinct_keys(remove_key(s, k)),
        !has_key(remove_key(s, k), k),
        forall|k2: Seq<u8>|
            k2 != k ==> #[trigger] has_key(remove_key(s, k), k2) == has_key(s, k2),
        forall|k2: Seq<u8>|
            k2 != k && has_key(s, k2) ==> #[trigger] value_of(remove_key(s, k), k2) == value_of(
                s,
                k2,
            ),
        remove_key(s, k).len() == if has_key(s, k) {
            s.len() - 1
        } else {
            s.len() as int
        },
{
    lemma_remove_key_distinct(s, k);
    assert forall|k2: Seq<u8>| k2 != k implies #[trigger] has_key(remove_key(s, k), k2)
        == has_key(s, k2) by {
        lemma_remove_key_one(s, k, k2);
    }
    assert forall|k2: Seq<u8>| k2 != k && has_key(s, k2) implies #[trigger] value_of(
        remove_key(s, k),
        k2,
    ) == value_of(s, k2) by {
        lemma_remove_key_one(s, k, k2);
    }
}

/// `touch` keeps keys distinct and puts `k`, bound to `v`, at the
/// most-recently-used end.
pub proof fn lemma_touch_distinct<V>(s: Seq<(Seq<u8>, V)>, k: Seq<u8>, v: V)
    requires
        distinct_keys(s),
    ensures
        distinct_keys(touch(s, k, v)),
        has_key(touch(s, k, v), k),
        value_of(touch(s, k, v), k) == v,
        touch(s, k, v).len() == if has_key(s, k) {
            s.len() as int
        } else {
            s.len() + 1int
        },
        touch(s, k, v).last() == (k, v),
{
    lemma_remove_key(s, k);
    let r = remove_key(s, k);
    let t = r.push((k, v));
    assert(t[t.len() - 1] == (k, v));
    assert forall|i2: int, j2: int| 0 <= i2 < j2 < t.len() implies t[i2].0 != t[j2].0 by {
        if j2 < t.len() - 1 {
            assert(t[i2] == r[i2] && t[j2] == r[j2]);
        } else {
            assert(t[i2] == r[i2]);
            lemma_key_at(r, r[i2].0, i2);
        }
    }
    lemma_key_at(t, k, t.len() - 1);
}

/// The effect of `touch` on one other key `k2`: its binding is untouched.
proof fn lemma_touch_one<V>(s: Seq<(Seq<u8>, V)>, k: Seq<u8>, v: V, k2: Seq<u8>)
    requires
        distinct_keys(s),
        k2 != k,
    ensures
        has_key(touch(s, k, v), k2) == has_key(s, k2),
        has_key(s, k2) ==> value_of(touch(s, k, v), k2) == value_of(s, k2),
{
    lemma_remove_key(s, k);
    lemma_touch_distinct(s, k, v);
    let r = remove_key(s, k);
    let t = r.push((k, v));
    if has_key(r, k2) {
        let i2 = key_index(r, k2);
        assert(0 <= i2 < r.len() && r[i2].0 == k2);
        assert(t[i2] == r[i2]);
        lemma_key_at(t, k2, i2);
        lemma_key_at(r, k2, i2);
    } else {
        if has_key(t, k2) {
            let i2 = key_index(t, k2);
            assert(0 <= i2 < t.len() && t[i2].0 == k2);
            assert(i2 < t.len() - 1);
            assert(t[i2] == r[i2]);
            assert(has_key(r, k2));
        }
    }
}

/// Touching `k` binds it to `v` at the most-recently-used end; every other
/// binding is untouched and keys stay distinct.
pub proof fn lemma_touch<V>(s: Seq<(Seq<u8>, V)>, k: Seq<u8>, v: V)
    requires
        distinct_keys(s),
    ensures
        distinct_keys(touch(s, k, v)),
        has_key(touch(s, k, v), k),
        value_of(touch(s, k, v), k) == v,
        forall|k2: Seq<u8>| k2 != k ==> #[trigger] has_key(touch(s, k, v), k2) == has_key(s, k2),
        forall|k2: Seq<u8>|
            k2 != k && has_key(s, k2) ==> #[trigger] value_of(touch(s, k, v), k2) == value_of(
                s,
                k2,
            ),
        touch(s, k, v).len() == if has_key(s, k) {
            s.len() as int
        } else {
            s.len() + 1int
        },
        touch(s, k, v).last() == (k, v),
{
    lemma_touch_distinct(s, k, v);
    assert forall|k2: Seq<u8>| k2 != k implies #[trigger] has_key(touch(s, k, v), k2) == has_key(
        s,
        k2,
    ) by {
        lemma_touch_one(s, k, v, k2);
    }
    assert forall|k2: Seq<u8>| k2 != k && has_key(s, k2) implies #[trigger] value_of(
        touch(s, k, v),
        k2,
    ) == value_of(s, k2) by {
        lemma_touch_one(s, k, v, k2);
    }
}


/// An insertion-ordered map from byte-string keys to values supporting
/// promote-on-access reordering: the leaf the bounded LRU cache is built on.
pub struct RecencyMap<V> {
    entries: Vec<(Bytes, V)>,
}

impl<V> View for RecencyMap<V> {
    type V = Seq<(Seq<u8>, V)>;

    closed spec fn view(&self) -> Seq<(Seq<u8>, V)> {
        Seq::new(self.entries@.len(), |i: int| (self.entries@[i].0@, self.entries@[i].1))
    }
}

impl<V> RecencyMap<V> {
    /// Well-formed: no key is bound twice.
    pub open spec fn wf(&self) -> bool {
        distinct_keys(self@)
    }

    /// An empty recency map.
    pub fn new() -> (r: RecencyMap<V>)
        ensures
            r.wf(),
            r@ == Seq::<(Seq<u8>, V)>::empty(),
    {
        let r = RecencyMap { entries: Vec::new() };
        proof {
            assert(r@ =~= Seq::<(Seq<u8>, V)>::empty());
        }
        r
    }

    /// The number of entries currently held.
    pub fn len(&self) -> (r: usize)
        ensures
            r == self@.len(),
    {
        self.entries.len()
    }

    /// Whether the map holds no entry.
    pub fn is_empty(&self) -> (r: bool)
        ensures
            r == (self@.len() == 0),
    {
        self.entries.is_empty()
    }

    /// Drop every entry.
    pub fn clear(&mut self)
        ensures
            final(self)@ == Seq::<(Seq<u8>, V)>::empty(),
            final(self).wf(),
    {
        self.entries.clear();
        proof {
            assert(self@ =~= Seq::<(Seq<u8>, V)>::empty());
        }
    }

    /// The position of the entry binding `k`, if one exists.
    fn find(&self, k: &[u8]) -> (r: Option<usize>)
        requires
            self.wf(),
        ensures
            match r {
                Some(i) => i < self@.len() && self@[i as int].0 == k@ && has_key(self@, k@)
                    && key_index(self@, k@) == i,
                None => !has_key(self@, k@),
            },
    {
        let mut i: usize = 0;
        while i < self.entries.len()
            invariant
                self.wf(),
                0 <= i <= self@.len(),
                self@.len() == self.entries@.len(),
                forall|j: int| 0 <= j < i ==> self@[j].0 != k@,
            decreases self@.len() - i,
        {
            let p = &self.entries[i];
            if bytes_eq(p.0.as_slice(), k) {
                proof {
                    lemma_key_at(self@, k@, i as int);
                }
                return Some(i);
            }
            i = i + 1;
        }
        None
    }

    /// Whether some entry binds `k`. Leaves the recency order alone.
    pub fn contains_key(&self, k: &[u8]) -> (r: bool)
        requires
            self.wf(),
        ensures
            r == has_key(self@, k@),
    {
        self.find(k).is_some()
    }

    /// Bind `k` to `v` at the most-recently-used end, returning the value any
    /// earlier binding of `k` held.
    pub fn insert(&mut self, k: Bytes, v: V) -> (r: Option<V>)
        requires
            old(self).wf(),
        ensures
            final(self).wf(),
            final(self)@ == touch(old(self)@, k@, v),
            match r {
                Some(w) => has_key(old(self)@, k@) && w == value_of(old(self)@, k@),
                None => !has_key(old(self)@, k@),
            },
    {
        let ghost s0 = self@;
        proof {
            lemma_touch(s0, k@, v);
        }
        let found = self.find(k.as_slice());
        match found {
            Some(i) => {
                let old_pair = self.entries.remove(i);
                self.entries.push((k, v));
                proof {
                    s0.remove_ensures(i as int);
                    assert(self@ =~= touch(s0, k@, v));
                }
                Some(old_pair.1)
            },
            None => {
                self.entries.push((k, v));
                proof {
                    assert(remove_key(s0, k@) == s0);
                    assert(self@ =~= touch(s0, k@, v));
                }
                None
            },
        }
    }

    /// Remove the entry binding `k`, returning its value.
    pub fn remove(&mut self, k: &[u8]) -> (r: Option<V>)
        requires
            old(self).wf(),
        ensures
            final(self).wf(),
            final(self)@ == remove_key(old(self)@, k@),
            match r {
                Some(w) => has_key(old(self)@, k@) && w == value_of(old(self)@, k@),
                None => !has_key(old(self)@, k@) && *final(self) == *old(self),
            },
    {
        let ghost s0 = self@;
        proof {
            lemma_remove_key(s0, k@);
        }
        let found = self.find(k);
        match found {
            Some(i) => {
                let old_pair = self.entries.remove(i);
                proof {
                    s0.remove_ensures(i as int);
                    assert(self@ =~= remove_key(s0, k@));
                }
                Some(old_pair.1)
            },
            None => None,
        }
    }

    /// The entry at position `i` of the recency order, least recently used
    /// first. Leaves the recency order alone.
    pub fn entry_at(&self, i: usize) -> (r: (&Bytes, &V))
        requires
            i < self@.len(),
        ensures
            r.0@ == self@[i as int].0,
            *r.1 == self@[i as int].1,
    {
        let p = &self.entries[i];
        (&p.0, &p.1)
    }

    /// The least recently used entry.
    pub fn front(&self) -> (r: Option<(&Bytes, &V)>)
        ensures
            match r {
                Some(p) => self@.len() > 0 && p.0@ == self@[0].0 && *p.1 == self@[0].1,
                None => self@.len() == 0,
            },
    {
        if self.entries.len() == 0 {
            None
        } else {
            Some(self.entry_at(0))
        }
    }

    /// The most recently used entry.
    pub fn back(&self) -> (r: Option<(&Bytes, &V)>)
        ensures
            match r {
                Some(p) => self@.len() > 0 && p.0@ == self@.last().0 && *p.1 == self@.last().1,
                None => self@.len() == 0,
            },
    {
        if self.entries.len() == 0 {
            None
        } else {
            Some(self.entry_at(self.entries.len() - 1))
        }
    }

    /// Remove and return the least recently used entry.
    pub fn pop_front(&mut self) -> (r: Option<(Bytes, V)>)
        requires
            old(self).wf(),
        ensures
            final(self).wf(),
            match r {
                Some(p) => old(self)@.len() > 0 && p.0@ == old(self)@[0].0
                    && p.1 == old(self)@[0].1 && final(self)@ == old(self)@.skip(1),
                None => old(self)@.len() == 0 && *final(self) == *old(self),
            },
    {
        if self.entries.len() == 0 {
            None
        } else {
            let ghost s0 = self@;
            let p = self.entries.remove(0);
            proof {
                assert(self@ =~= s0.skip(1));
                assert forall|i2: int, j2: int|
                    0 <= i2 < j2 < self@.len() implies self@[i2].0 != self@[j2].0 by {
                    assert(s0[i2 + 1].0 != s0[j2 + 1].0);
                }
            }
            Some(p)
        }
    }

    /// Remove and return the most recently used entry.
    pub fn pop_back(&mut self) -> (r: Option<(Bytes, V)>)
        requires
            old(self).wf(),
        ensures
            final(self).wf(),
            match r {
                Some(p) => old(self)@.len() > 0 && p.0@ == old(self)@.last().0
                    && p.1 == old(self)@.last().1 && final(self)@ == old(self)@.drop_last(),
                None => old(self)@.len() == 0 && *final(self) == *old(self),
            },
    {
        if self.entries.len() == 0 {
            return None;
        }
        let ghost s0 = self@;
        let p = self.entries.pop();
        match p {
            Some(q) => {
                proof {
                    assert(self@ =~= s0.drop_last());
                    assert forall|i2: int, j2: int|
                        0 <= i2 < j2 < self@.len() implies self@[i2].0 != self@[j2].0 by {
                        assert(s0[i2].0 != s0[j2].0);
                    }
                }
                Some(q)
            },
            None => None,
        }
    }

    /// Promote the entry binding `k` to the most-recently-used end and hand
    /// out mutable access to its value. On a miss nothing changes.
    pub fn get_refresh(&mut self, k: &[u8]) -> (r: Option<&mut V>)
        requires
            old(self).wf(),
        ensures
            match r {
                Some(v) => has_key(old(self)@, k@) && *v == value_of(old(self)@, k@)
                    && final(self)@ == touch(old(self)@, k@, *final(v)) && final(self).wf(),
                None => !has_key(old(self)@, k@) && *final(self) == *old(self),
            },
    {
        let ghost s0 = self@;
        let found = self.find(k);
        match found {
            Some(i) => {
                let pair = self.entries.remove(i);
                self.entries.push(pair);
                let n = self.entries.len();
                let v = &mut self.entries[n - 1].1;
                proof {
                    s0.remove_ensures(i as int);
                    lemma_touch(s0, k@, *final(v));
                    assert(after_borrow(*self)@ =~= touch(s0, k@, *final(v)));
                }
                Some(v)
            },
            None => None,
        }
    }

    /// Mutable access to the value at position `i` of the recency order:
    /// the positional mutable traversal. Leaves the recency order alone.
    pub fn value_at_mut(&mut self, i: usize) -> (r: &mut V)
        requires
            old(self).wf(),
            i < old(self)@.len(),
        ensures
            *r == old(self)@[i as int].1,
            final(self).wf(),
            final(self)@ == old(self)@.update(i as int, (old(self)@[i as int].0, *final(r))),
    {
        let ghost s0 = self@;
        let v = &mut self.entries[i].1;
        proof {
            let t = s0.update(i as int, (s0[i as int].0, *final(v)));
            assert(after_borrow(*self)@ =~= t);
            assert forall|i2: int, j2: int|
                0 <= i2 < j2 < t.len() implies t[i2].0 != t[j2].0 by {
                assert(s0[i2].0 != s0[j2].0);
                assert(t[i2].0 == s0[i2].0 && t[j2].0 == s0[j2].0);
            }
        }
        v
    }

    /// Read the value bound to `k`. Leaves the recency order alone.
    pub fn get(&self, k: &[u8]) -> (r: Option<&V>)
        requires
            self.wf(),
        ensures
            match r {
                Some(v) => has_key(self@, k@) && *v == value_of(self@, k@),
                None => !has_key(self@, k@),
            },
    {
        let found = self.find(k);
        match found {
            Some(i) => Some(&self.entries[i].1),
            None => None,
        }
    }

    /// Hand out mutable access to the value bound to `k`. Leaves the recency
    /// order alone.
    pub fn get_mut(&mut self, k: &[u8]) -> (r: Option<&mut V>)
        requires
            old(self).wf(),
        ensures
            match r {
                Some(v) => has_key(old(self)@, k@) && *v == value_of(old(self)@, k@)
                    && final(self).wf() && final(self)@ == old(self)@.update(
                    key_index(old(self)@, k@),
                    (k@, *final(v)),
                ),
                None => !has_key(old(self)@, k@) && *final(self) == *old(self),
            },
    {
        let ghost s0 = self@;
        let found = self.find(k);
        match found {
            Some(i) => {
                let v = &mut self.entries[i].1;
                proof {
                    let t = s0.update(i as int, (k@, *final(v)));
                    assert(after_borrow(*self)@ =~= t);
                    assert forall|i2: int, j2: int|
                        0 <= i2 < j2 < t.len() implies t[i2].0 != t[j2].0 by {
                        assert(s0[i2].0 != s0[j2].0);
                        assert(t[i2].0 == s0[i2].0 && t[j2].0 == s0[j2].0);
                    }
                }
                Some(v)
            },
            None => None,
        }
    }
}

} // verus!
