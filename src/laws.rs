use vstd::prelude::*;

use crate::map::lookup;

verus! {

/// One mutation of a map, as `insert` and `remove` make it.
pub enum MapOp<K, V> {
    /// Map the key to the value.
    Insert(K, V),
    /// Take the key out.
    Remove(K),
}

/// The mapping after `op`: the `ensures` of `insert` and `remove` say that
/// the map's view changes exactly so.
pub open spec fn apply_op<K, V>(m: Map<K, V>, op: MapOp<K, V>) -> Map<K, V> {
    match op {
        MapOp::Insert(k, v) => m.insert(k, v),
        MapOp::Remove(k) => m.remove(k),
    }
}

/// The mapping after each of `ops`, in order.
pub open spec fn apply_ops<K, V>(m: Map<K, V>, ops: Seq<MapOp<K, V>>) -> Map<K, V>
    decreases ops.len(),
{
    if ops.len() == 0 {
        m
    } else {
        apply_op(apply_ops(m, ops.drop_last()), ops.last())
    }
}

/// Whether `op` is about `k`.
pub open spec fn touches<K, V>(op: MapOp<K, V>, k: K) -> bool {
    match op {
        MapOp::Insert(j, _) => j == k,
        MapOp::Remove(j) => j == k,
    }
}

/// What the last of `ops` that is about `k` left for it: the value of its
/// last insert, nothing after its last remove, `before` when no op is about
/// `k`.
pub open spec fn last_write<K, V>(ops: Seq<MapOp<K, V>>, k: K, before: Option<V>) -> Option<V>
    decreases ops.len(),
{
    if ops.len() == 0 {
        before
    } else if touches(ops.last(), k) {
        match ops.last() {
            MapOp::Insert(_, v) => Some(v),
            MapOp::Remove(_) => None,
        }
    } else {
        last_write(ops.drop_last(), k, before)
    }
}

/// The keys that a map built from nothing by `ops` holds: those whose last
/// op is an insert.
pub open spec fn live_keys<K, V>(ops: Seq<MapOp<K, V>>) -> Set<K> {
    Set::new(|k: K| last_write(ops, k, None) is Some)
}

/// After any sequence of inserts and removes, a key maps to the value of its
/// last insert, unless a remove came after it; a key that no op is about
/// keeps what it had. In particular each insert gives back the value of the
/// insert of its key before it.
pub proof fn law_last_write_wins<K, V>(m: Map<K, V>, ops: Seq<MapOp<K, V>>, k: K)
    ensures
        lookup(apply_ops(m, ops), k) == last_write(ops, k, lookup(m, k)),
    decreases ops.len(),
{
    if ops.len() > 0 {
        law_last_write_wins(m, ops.drop_last(), k);
    }
}

/// Right after `k` is mapped to `v`, and after any number of ops about other
/// keys, a lookup of `k` gives `v`.
pub proof fn law_round_trip<K, V>(m: Map<K, V>, k: K, v: V, ops: Seq<MapOp<K, V>>)
    requires
        forall|i: int| 0 <= i < ops.len() ==> !touches(#[trigger] ops[i], k),
    ensures
        lookup(m.insert(k, v), k) == Some(v),
        lookup(apply_ops(m.insert(k, v), ops), k) == Some(v),
    decreases ops.len(),
{
    if ops.len() > 0 {
        let rest = ops.drop_last();
        assert forall|i: int| 0 <= i < rest.len() implies !touches(#[trigger] rest[i], k) by {
            assert(rest[i] == ops[i]);
        }
        law_round_trip(m, k, v, rest);
        assert(!touches(ops[ops.len() - 1], k));
    }
}

/// Removing an absent key changes nothing, so the length stays; a second
/// remove of the same key finds nothing.
pub proof fn law_remove_idempotent<K, V>(m: Map<K, V>, k: K)
    ensures
        !m.dom().contains(k) ==> m.remove(k) == m,
        !m.dom().contains(k) ==> m.remove(k).len() == m.len(),
        lookup(m.remove(k), k) == None::<V>,
        m.remove(k).remove(k) == m.remove(k),
{
    if !m.dom().contains(k) {
        assert(m.remove(k) =~= m);
    }
    assert(m.remove(k).remove(k) =~= m.remove(k));
}

/// A map built from nothing by any sequence of inserts and removes holds
/// exactly the keys whose last op is an insert, finitely many, so its length
/// counts them.
pub proof fn law_len_counts_live_keys<K, V>(ops: Seq<MapOp<K, V>>)
    ensures
        apply_ops(Map::<K, V>::empty(), ops).dom() == live_keys(ops),
        live_keys(ops).finite(),
        apply_ops(Map::<K, V>::empty(), ops).len() == live_keys(ops).len(),
{
    let m = apply_ops(Map::<K, V>::empty(), ops);
    assert forall|k: K| #[trigger] m.dom().contains(k) <==> live_keys(ops).contains(k) by {
        law_last_write_wins(Map::<K, V>::empty(), ops, k);
    }
    assert(m.dom() =~= live_keys(ops));
    lemma_apply_ops_finite(Map::<K, V>::empty(), ops);
}

proof fn lemma_apply_ops_finite<K, V>(m: Map<K, V>, ops: Seq<MapOp<K, V>>)
    requires
        m.dom().finite(),
    ensures
        apply_ops(m, ops).dom().finite(),
    decreases ops.len(),
{
    if ops.len() > 0 {
        lemma_apply_ops_finite(m, ops.drop_last());
    }
}

/// Writing `w` into the value of a key that the map holds, as `map_mut` and
/// `get_mut` do, leaves the map that `insert(k, w)` would leave: a lookup of
/// `k` then gives `w`, and the keys and the length stay.
pub proof fn law_write_is_insert<K, V>(m: Map<K, V>, k: K, w: V)
    requires
        m.dom().contains(k),
    ensures
        m.insert(k, w) == apply_op(m, MapOp::Insert(k, w)),
        lookup(m.insert(k, w), k) == Some(w),
        m.insert(k, w).dom() == m.dom(),
        m.insert(k, w).len() == m.len(),
{
    assert(m.insert(k, w).dom() =~= m.dom());
}

} // verus!
