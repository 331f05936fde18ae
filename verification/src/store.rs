//! The ordered key-value store the write-back index persists to: a sorted
//! in-memory map from byte-string keys to byte-string values, with the range
//! cursor the persistent backend offers (first entry at or after a key, last
//! entry at or before one).

use vstd::prelude::*;
use crate::bytes::Bytes;
use crate::bytes::bytes_clone;
use crate::bytes::bytes_eq;
use crate::bytes::bytes_le;
use crate::bytes::lex_le;
use crate::bytes::lex_lt;
use crate::bytes::lemma_lex_le_antisym;
use crate::bytes::lemma_lex_le_refl;
use crate::bytes::lemma_lex_le_total;
use crate::bytes::lemma_lex_le_trans;
use crate::recency::distinct_keys;
use crate::recency::has_key;
use crate::recency::key_index;
use crate::recency::lemma_key_at;
use crate::recency::value_of;

verus! {

/// A failure surfaced by the persistent backend: either the input handed to
/// it cannot be used, or some other backend fault.
#[derive(Debug)]
pub enum Error {
    InvalidInput(String),
    Other(String),
}

/// An error for input the backend cannot use (a path it cannot open, bytes
/// that do not decode as a value).
pub fn error_invalid_input(msg: String) -> (r: Error)
    ensures
        r == Error::InvalidInput(msg),
{
    Error::InvalidInput(msg)
}

/// An error for any other backend fault.
pub fn error_other(msg: String) -> (r: Error)
    ensures
        r == Error::Other(msg),
{
    Error::Other(msg)
}

/// The store after one write: `k` now bound to `v`, every other binding
/// kept, the entry count grown only when `k` was new.
pub open spec fn store_updated(
    s0: Seq<(Seq<u8>, Seq<u8>)>,
    s1: Seq<(Seq<u8>, Seq<u8>)>,
    k: Seq<u8>,
    v: Seq<u8>,
) -> bool {
    &&& has_key(s1, k)
    &&& value_of(s1, k) == v
    &&& forall|k2: Seq<u8>| k2 != k ==> #[trigger] has_key(s1, k2) == has_key(s0, k2)
    &&& forall|k2: Seq<u8>|
        k2 != k && has_key(s0, k2) ==> #[trigger] value_of(s1, k2) == value_of(s0, k2)
    &&& s1.len() == s0.len() + if has_key(s0, k) {
        0int
    } else {
        1int
    }
}

/// Entries sorted by strictly ascending key.
pub open spec fn sorted_strict(s: Seq<(Seq<u8>, Seq<u8>)>) -> bool {
    forall|i: int, j: int| 0 <= i < j < s.len() ==> lex_lt(#[trigger] s[i].0, #[trigger] s[j].0)
}

/// Strictly sorted entries bind every key at most once.
pub proof fn lemma_sorted_distinct(s: Seq<(Seq<u8>, Seq<u8>)>)
    requires
        sorted_strict(s),
    ensures
        distinct_keys(s),
{
    assert forall|i: int, j: int| 0 <= i < j < s.len() implies s[i].0 != s[j].0 by {
        assert(lex_lt(s[i].0, s[j].0));
    }
}

/// The ordered store: a map from byte-string keys to byte-string values,
/// kept sorted by key so that range seeks are answered by position.
pub struct Store {
    entries: Vec<(Bytes, Bytes)>,
}

impl View for Store {
    type V = Seq<(Seq<u8>, Seq<u8>)>;

    closed spec fn view(&self) -> Seq<(Seq<u8>, Seq<u8>)> {
        Seq::new(self.entries@.len(), |i: int| (self.entries@[i].0@, self.entries@[i].1@))
    }
}

impl Store {
    /// Well-formed: entries sorted by strictly ascending key.
    pub open spec fn wf(&self) -> bool {
        sorted_strict(self@)
    }

    /// An empty store.
    pub fn new() -> (r: Store)
        ensures
            r.wf(),
            r@ == Seq::<(Seq<u8>, Seq<u8>)>::empty(),
    {
        let r = Store { entries: Vec::new() };
        proof {
            assert(r@ =~= Seq::<(Seq<u8>, Seq<u8>)>::empty());
        }
        r
    }

    /// The number of stored entries.
    pub fn len(&self) -> (r: usize)
        ensures
            r == self@.len(),
    {
        self.entries.len()
    }

    /// The position of the entry binding `key`, if one exists.
    fn find(&self, key: &[u8]) -> (r: Option<usize>)
        requires
            self.wf(),
        ensures
            match r {
                Some(i) => i < self@.len() && self@[i as int].0 == key@ && has_key(self@, key@)
                    && key_index(self@, key@) == i,
                None => !has_key(self@, key@),
            },
    {
        proof {
            lemma_sorted_distinct(self@);
        }
        let mut i: usize = 0;
        while i < self.entries.len()
            invariant
                self.wf(),
                0 <= i <= self@.len(),
                self@.len() == self.entries@.len(),
                forall|j: int| 0 <= j < i ==> self@[j].0 != key@,
            decreases self@.len() - i,
        {
            let p = &self.entries[i];
            if bytes_eq(p.0.as_slice(), key) {
                proof {
                    lemma_key_at(self@, key@, i as int);
                }
                return Some(i);
            }
            i = i + 1;
        }
        None
    }

    /// Read the value stored under `key`, as an owned copy.
    pub fn get(&self, key: &[u8]) -> (r: Option<Bytes>)
        requires
            self.wf(),
        ensures
            match r {
                Some(v) => has_key(self@, key@) && v@ == value_of(self@, key@),
                None => !has_key(self@, key@),
            },
    {
        match self.find(key) {
            Some(i) => Some(bytes_clone(self.entries[i].1.as_slice())),
            None => None,
        }
    }

    /// Store `value` under `key`, replacing any earlier value. Every other
    /// binding is untouched; the store stays sorted.
    pub fn put(&mut self, key: Bytes, value: Bytes)
        requires
            old(self).wf(),
        ensures
            final(self).wf(),
            store_updated(old(self)@, final(self)@, key@, value@),
    {
        let ghost s0 = self@;
        proof {
            lemma_sorted_distinct(s0);
        }
        let mut i: usize = 0;
        while i < self.entries.len()
            invariant
                self.wf(),
                s0 == self@,
                0 <= i <= self@.len(),
                self@.len() == self.entries@.len(),
                forall|j: int| 0 <= j < i ==> lex_lt(#[trigger] self@[j].0, key@),
            ensures
                s0 == self@,
                0 <= i <= self@.len(),
                self@.len() == self.entries@.len(),
                forall|j: int| 0 <= j < i ==> lex_lt(#[trigger] self@[j].0, key@),
                i < self@.len() ==> lex_le(key@, self@[i as int].0),
            decreases self@.len() - i,
        {
            let p = &self.entries[i];
            if bytes_le(key.as_slice(), p.0.as_slice()) {
                break ;
            }
            proof {
                lemma_lex_le_total(self@[i as int].0, key@);
                assert(self@[i as int].0 != key@) by {
                    if self@[i as int].0 == key@ {
                        lemma_lex_le_refl(key@);
                    }
                }
            }
            i = i + 1;
        }
        let replace = if i < self.entries.len() {
            bytes_eq(self.entries[i].0.as_slice(), key.as_slice())
        } else {
            false
        };
        if replace {
            proof {
                lemma_key_at(s0, key@, i as int);
            }
            let _old = self.entries.remove(i);
            self.entries.insert(i, (key, value));
            proof {
                let t = s0.update(i as int, (key@, value@));
                assert(self@ =~= t);
                assert forall|i2: int, j2: int|
                    0 <= i2 < j2 < t.len() implies lex_lt(#[trigger] t[i2].0, #[trigger] t[j2].0) by {
                    assert(lex_lt(s0[i2].0, s0[j2].0));
                    assert(t[i2].0 == s0[i2].0 && t[j2].0 == s0[j2].0);
                }
                lemma_sorted_distinct(t);
                lemma_key_at(t, key@, i as int);
                assert forall|k2: Seq<u8>| k2 != key@ implies #[trigger] has_key(t, k2) == has_key(
                    s0,
                    k2,
                ) && (has_key(s0, k2) ==> value_of(t, k2) == value_of(s0, k2)) by {
                    if has_key(s0, k2) {
                        let i2 = key_index(s0, k2);
                        assert(0 <= i2 < s0.len() && s0[i2].0 == k2);
                        assert(t[i2] == s0[i2]);
                        lemma_key_at(t, k2, i2);
                        lemma_key_at(s0, k2, i2);
                    } else if has_key(t, k2) {
                        let i2 = key_index(t, k2);
                        assert(0 <= i2 < t.len() && t[i2].0 == k2);
                        assert(i2 != i);
                        assert(t[i2] == s0[i2]);
                        assert(has_key(s0, k2));
                    }
                }
                assert forall|k2: Seq<u8>| k2 != key@ && has_key(s0, k2) implies #[trigger] value_of(
                    t,
                    k2,
                ) == value_of(s0, k2) by {
                    assert(has_key(t, k2) == has_key(s0, k2));
                }
            }
        } else {
            proof {
                assert forall|j: int| i <= j < s0.len() implies lex_lt(key@, #[trigger] s0[j].0) by {
                    assert(lex_le(key@, s0[i as int].0));
                    assert(s0[i as int].0 != key@);
                    if j > i {
                        assert(lex_lt(s0[i as int].0, s0[j].0));
                        lemma_lex_le_trans(key@, s0[i as int].0, s0[j].0);
                        if key@ == s0[j].0 {
                            lemma_lex_le_antisym(key@, s0[i as int].0);
                        }
                    }
                }
                assert(!has_key(s0, key@)) by {
                    if has_key(s0, key@) {
                        let i2 = key_index(s0, key@);
                        assert(0 <= i2 < s0.len() && s0[i2].0 == key@);
                        if i2 < i {
                            assert(lex_lt(s0[i2].0, key@));
                        } else {
                            assert(lex_lt(key@, s0[i2].0));
                        }
                    }
                }
            }
            self.entries.insert(i, (key, value));
            proof {
                let t = s0.insert(i as int, (key@, value@));
                s0.insert_ensures(i as int, (key@, value@));
                assert(self@ =~= t);
                assert forall|i2: int, j2: int|
                    0 <= i2 < j2 < t.len() implies lex_lt(#[trigger] t[i2].0, #[trigger] t[j2].0) by {
                    if j2 < i {
                        assert(t[i2] == s0[i2] && t[j2] == s0[j2]);
                    } else if i2 > i {
                        assert(t[i2] == s0[i2 - 1] && t[j2] == s0[j2 - 1]);
                    } else if i2 == i && j2 > i {
                        assert(t[j2] == s0[j2 - 1]);
                        assert(lex_lt(key@, s0[j2 - 1].0));
                    } else if j2 == i {
                        assert(t[i2] == s0[i2]);
                        assert(lex_lt(s0[i2].0, key@));
                    } else {
                        assert(i2 < i && j2 > i);
                        assert(t[i2] == s0[i2] && t[j2] == s0[j2 - 1]);
                        assert(lex_lt(s0[i2].0, key@));
                        assert(lex_lt(key@, s0[j2 - 1].0));
                        lemma_lex_le_trans(s0[i2].0, key@, s0[j2 - 1].0);
                        if s0[i2].0 == s0[j2 - 1].0 {
                            lemma_lex_le_antisym(s0[i2].0, key@);
                        }
                    }
                }
                lemma_sorted_distinct(t);
                lemma_key_at(t, key@, i as int);
                assert forall|k2: Seq<u8>| k2 != key@ implies #[trigger] has_key(t, k2) == has_key(
                    s0,
                    k2,
                ) && (has_key(s0, k2) ==> value_of(t, k2) == value_of(s0, k2)) by {
                    if has_key(s0, k2) {
                        let i2 = key_index(s0, k2);
                        assert(0 <= i2 < s0.len() && s0[i2].0 == k2);
                        if i2 < i {
                            assert(t[i2] == s0[i2]);
                            lemma_key_at(t, k2, i2);
                        } else {
                            assert(t[i2 + 1] == s0[i2]);
                            lemma_key_at(t, k2, i2 + 1);
                        }
                        lemma_key_at(s0, k2, i2);
                    } else if has_key(t, k2) {
                        let i2 = key_index(t, k2);
                        assert(0 <= i2 < t.len() && t[i2].0 == k2);
                        assert(i2 != i);
                        if i2 < i {
                            assert(t[i2] == s0[i2]);
                        } else {
                            assert(t[i2] == s0[i2 - 1]);
                        }
                        assert(has_key(s0, k2));
                    }
                }
                assert forall|k2: Seq<u8>| k2 != key@ && has_key(s0, k2) implies #[trigger] value_of(
                    t,
                    k2,
                ) == value_of(s0, k2) by {
                    assert(has_key(t, k2) == has_key(s0, k2));
                }
            }
        }
    }

    /// The first stored entry whose key is at or after `from`, as owned
    /// copies, or nothing when every stored key sorts before `from`.
    pub fn seek_next(&self, from: &[u8]) -> (r: Option<(Bytes, Bytes)>)
        requires
            self.wf(),
        ensures
            match r {
                Some(p) => has_key(self@, p.0@) && p.1@ == value_of(self@, p.0@) && lex_le(
                    from@,
                    p.0@,
                ) && forall|k2: Seq<u8>|
                    has_key(self@, k2) && lex_le(from@, k2) ==> lex_le(p.0@, k2),
                None => forall|k2: Seq<u8>| has_key(self@, k2) ==> !lex_le(from@, k2),
            },
    {
        proof {
            lemma_sorted_distinct(self@);
        }
        let ghost s = self@;
        let mut i: usize = 0;
        while i < self.entries.len()
            invariant
                self.wf(),
                s == self@,
                0 <= i <= self@.len(),
                self@.len() == self.entries@.len(),
                forall|j: int| 0 <= j < i ==> !lex_le(from@, #[trigger] self@[j].0),
            decreases self@.len() - i,
        {
            let p = &self.entries[i];
            if bytes_le(from, p.0.as_slice()) {
                let key = bytes_clone(p.0.as_slice());
                let val = bytes_clone(p.1.as_slice());
                proof {
                    lemma_key_at(s, s[i as int].0, i as int);
                    assert forall|k2: Seq<u8>|
                        has_key(s, k2) && lex_le(from@, k2) implies lex_le(s[i as int].0, k2) by {
                        let i2 = key_index(s, k2);
                        assert(0 <= i2 < s.len() && s[i2].0 == k2);
                        if i2 < i {
                            assert(!lex_le(from@, s[i2].0));
                        } else if i2 > i {
                            assert(lex_lt(s[i as int].0, s[i2].0));
                        } else {
                            lemma_lex_le_refl(s[i as int].0);
                        }
                    }
                }
                return Some((key, val));
            }
            i = i + 1;
        }
        proof {
            assert forall|k2: Seq<u8>| has_key(s, k2) implies !lex_le(from@, k2) by {
                let i2 = key_index(s, k2);
                assert(0 <= i2 < s.len() && s[i2].0 == k2);
            }
        }
        None
    }

    /// The last stored entry whose key is at or before `from`, as owned
    /// copies, or nothing when every stored key sorts after `from`.
    pub fn seek_prev(&self, from: &[u8]) -> (r: Option<(Bytes, Bytes)>)
        requires
            self.wf(),
        ensures
            match r {
                Some(p) => has_key(self@, p.0@) && p.1@ == value_of(self@, p.0@) && lex_le(
                    p.0@,
                    from@,
                ) && forall|k2: Seq<u8>|
                    has_key(self@, k2) && lex_le(k2, from@) ==> lex_le(k2, p.0@),
                None => forall|k2: Seq<u8>| has_key(self@, k2) ==> !lex_le(k2, from@),
            },
    {
        proof {
            lemma_sorted_distinct(self@);
        }
        let ghost s = self@;
        let mut i: usize = self.entries.len();
        while i > 0
            invariant
                self.wf(),
                s == self@,
                0 <= i <= self@.len(),
                self@.len() == self.entries@.len(),
                forall|j: int| i <= j < self@.len() ==> !lex_le(#[trigger] self@[j].0, from@),
            decreases i,
        {
            i = i - 1;
            let p = &self.entries[i];
            if bytes_le(p.0.as_slice(), from) {
                let key = bytes_clone(p.0.as_slice());
                let val = bytes_clone(p.1.as_slice());
                proof {
                    lemma_key_at(s, s[i as int].0, i as int);
                    assert forall|k2: Seq<u8>|
                        has_key(s, k2) && lex_le(k2, from@) implies lex_le(k2, s[i as int].0) by {
                        let i2 = key_index(s, k2);
                        assert(0 <= i2 < s.len() && s[i2].0 == k2);
                        if i2 > i {
                            assert(!lex_le(s[i2].0, from@));
                        } else if i2 < i {
                            assert(lex_lt(s[i2].0, s[i as int].0));
                        } else {
                            lemma_lex_le_refl(s[i as int].0);
                        }
                    }
                }
                return Some((key, val));
            }
        }
        proof {
            assert forall|k2: Seq<u8>| has_key(s, k2) implies !lex_le(k2, from@) by {
                let i2 = key_index(s, k2);
                assert(0 <= i2 < s.len() && s[i2].0 == k2);
            }
        }
        None
    }

    /// The ordered-range cursor over this store.
    pub fn seek(&self) -> (r: Seek<'_>)
        requires
            self.wf(),
        ensures
            r.store@ == self@,
            r.store.wf(),
    {
        Seek { store: self }
    }
}

/// A cursor over the store's entries in key order, answering "first entry at
/// or after a key" and "last entry at or before a key".
pub struct Seek<'a> {
    /// The store the cursor ranges over.
    pub store: &'a Store,
}

impl<'a> Seek<'a> {
    /// The first stored entry with key at or after `from`.
    pub fn next(&self, from: &[u8]) -> (r: Option<(Bytes, Bytes)>)
        requires
            self.store.wf(),
        ensures
            match r {
                Some(p) => has_key(self.store@, p.0@) && p.1@ == value_of(self.store@, p.0@)
                    && lex_le(from@, p.0@) && forall|k2: Seq<u8>|
                    has_key(self.store@, k2) && lex_le(from@, k2) ==> lex_le(p.0@, k2),
                None => forall|k2: Seq<u8>| has_key(self.store@, k2) ==> !lex_le(from@, k2),
            },
    {
        self.store.seek_next(from)
    }

    /// The last stored entry with key at or before `from`.
    pub fn prev(&self, from: &[u8]) -> (r: Option<(Bytes, Bytes)>)
        requires
            self.store.wf(),
        ensures
            match r {
                Some(p) => has_key(self.store@, p.0@) && p.1@ == value_of(self.store@, p.0@)
                    && lex_le(p.0@, from@) && forall|k2: Seq<u8>|
                    has_key(self.store@, k2) && lex_le(k2, from@) ==> lex_le(k2, p.0@),
                None => forall|k2: Seq<u8>| has_key(self.store@, k2) ==> !lex_le(k2, from@),
            },
    {
        self.store.seek_prev(from)
    }
}

} // verus!
