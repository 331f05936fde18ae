//! The laws the cache and the write-back index obey, proved over the model
//! the executable contracts are stated in: `touch` is what `insert`, `get`
//! and `put` do to the resident entries, and a `put` past the capacity
//! drops the entry at the least-recently-used end.

use vstd::prelude::*;
use crate::index::lemma_tail_keeps_last;
use crate::recency::distinct_keys;
use crate::recency::has_key;
use crate::recency::lemma_touch;
use crate::recency::touch;
use crate::recency::value_of;

verus! {

/// Residency bound: one `put` on a cache within its capacity leaves it
/// within its capacity — the touched entries are kept, and the
/// least-recently-used one is dropped when the bound is passed. By
/// induction no sequence of `put`s pushes the resident count past the
/// capacity.
pub proof fn lemma_put_bounds_residency<V>(s: Seq<(Seq<u8>, V)>, cap: nat, k: Seq<u8>, v: V)
    requires
        distinct_keys(s),
        s.len() <= cap,
    ensures
        ({
            let t = touch(s, k, v);
            (if t.len() > cap {
                t.skip(1)
            } else {
                t
            }).len() <= cap
        }),
{
    lemma_touch(s, k, v);
}

/// The resident entries after a whole sequence of `put`s, applied in
/// order: each one touches its key and drops the least-recently-used entry
/// when the capacity is passed, as `put` does.
pub open spec fn put_all<V>(
    s: Seq<(Seq<u8>, V)>,
    cap: nat,
    ops: Seq<(Seq<u8>, V)>,
) -> Seq<(Seq<u8>, V)>
    decreases ops.len(),
{
    if ops.len() == 0 {
        s
    } else {
        let t = touch(put_all(s, cap, ops.drop_last()), ops.last().0, ops.last().1);
        if t.len() > cap {
            t.skip(1)
        } else {
            t
        }
    }
}

/// For every sequence of `put`s on a cache within its capacity, the
/// resident-entry count never exceeds the capacity, and resident keys stay
/// distinct.
pub proof fn lemma_puts_never_exceed_capacity<V>(
    s: Seq<(Seq<u8>, V)>,
    cap: nat,
    ops: Seq<(Seq<u8>, V)>,
)
    requires
        distinct_keys(s),
        s.len() <= cap,
    ensures
        put_all(s, cap, ops).len() <= cap,
        distinct_keys(put_all(s, cap, ops)),
    decreases ops.len(),
{
    if ops.len() > 0 {
        lemma_puts_never_exceed_capacity(s, cap, ops.drop_last());
        let prev = put_all(s, cap, ops.drop_last());
        lemma_touch(prev, ops.last().0, ops.last().1);
        let t = touch(prev, ops.last().0, ops.last().1);
        if t.len() > cap {
            let u = t.skip(1);
            assert forall|i2: int, j2: int|
                0 <= i2 < j2 < u.len() implies u[i2].0 != u[j2].0 by {
                assert(t[i2 + 1].0 != t[j2 + 1].0);
            }
        }
    }
}

/// A hit only reorders: promoting `k` (what `get` does on a hit) leaves
/// exactly the same keys resident, each bound to exactly the same value.
pub proof fn lemma_get_preserves_residents<V>(s: Seq<(Seq<u8>, V)>, k: Seq<u8>)
    requires
        distinct_keys(s),
        has_key(s, k),
    ensures
        touch(s, k, value_of(s, k)).len() == s.len(),
        forall|k2: Seq<u8>| #[trigger] has_key(touch(s, k, value_of(s, k)), k2) == has_key(s, k2),
        forall|k2: Seq<u8>|
            has_key(s, k2) ==> #[trigger] value_of(touch(s, k, value_of(s, k)), k2) == value_of(
                s,
                k2,
            ),
{
    lemma_touch(s, k, value_of(s, k));
}

/// Eviction removes the least-recently-touched key: a `put` of a fresh key
/// on a full cache overflows the capacity, and the entry pushed out is
/// exactly the one at the least-recently-used end.
pub proof fn lemma_eviction_is_lru<V>(s: Seq<(Seq<u8>, V)>, cap: nat, k: Seq<u8>, v: V)
    requires
        distinct_keys(s),
        s.len() == cap,
        cap > 0,
        !has_key(s, k),
    ensures
        touch(s, k, v).len() > cap,
        touch(s, k, v)[0] == s[0],
{
    lemma_touch(s, k, v);
    assert(touch(s, k, v) == s.push((k, v)));
}

/// Write-back round trip: binding `k` to `v` leaves `k` resident with
/// exactly `v`, even when the bind evicts — the capacity is at least one,
/// so the entry at the most-recently-used end survives. A `get` of `k`
/// right after is therefore a cache hit, which by the index's contract
/// returns `v` and does not touch the store; and when the entry for `k` is
/// itself evicted later, the index persists the evicted pair byte-exact
/// before the evicting call returns.
pub proof fn lemma_round_trip<V>(s: Seq<(Seq<u8>, V)>, cap: nat, k: Seq<u8>, v: V)
    requires
        distinct_keys(s),
        cap >= 1,
    ensures
        ({
            let t = touch(s, k, v);
            let after = if t.len() > cap {
                t.skip(1)
            } else {
                t
            };
            has_key(after, k) && value_of(after, k) == v && distinct_keys(after)
        }),
{
    lemma_touch(s, k, v);
    let t = touch(s, k, v);
    if t.len() > cap {
        lemma_tail_keeps_last(t);
    }
}

} // verus!
