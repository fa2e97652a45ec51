//! The map that a map container stands for, and what lookups, insertions
//! and removals do to it.

use vstd::prelude::*;

verus! {

/// The pairs that a sequence of borrowed pairs refers to.
pub open spec fn unref<K, V>(items: Seq<(&K, &V)>) -> Seq<(K, V)> {
    Seq::new(items.len(), |i: int| (*items[i].0, *items[i].1))
}

/// What a lookup of `k` in the map `m` gives: the value of `k`, if it has
/// one.
pub open spec fn lookup<A, B>(m: Map<A, B>, k: A) -> Option<B> {
    if m.contains_key(k) {
        Some(m[k])
    } else {
        None
    }
}

/// A lookup right after an insertion of the same key finds the value that
/// was inserted.
pub proof fn lemma_insert_then_get<A, B>(m: Map<A, B>, k: A, v: B)
    ensures
        lookup(m.insert(k, v), k) == Some(v),
{
}

/// An insertion under a key that the map has leaves the number of pairs as
/// it was, and replaces the value that a lookup found before.
pub proof fn lemma_insert_existing<A, B>(m: Map<A, B>, k: A, v: B)
    requires
        m.dom().finite(),
        m.contains_key(k),
    ensures
        m.insert(k, v).len() == m.len(),
        lookup(m, k) == Some(m[k]),
{
    assert(m.insert(k, v).dom() =~= m.dom());
}

/// A lookup right after a removal of the same key finds nothing.
pub proof fn lemma_remove_then_get<A, B>(m: Map<A, B>, k: A)
    ensures
        lookup(m.remove(k), k).is_none(),
{
}

/// An insertion after a removal of the same key leaves the map that the
/// insertion alone leaves.
pub proof fn lemma_remove_then_insert<A, B>(m: Map<A, B>, k: A, v: B)
    ensures
        m.remove(k).insert(k, v) == m.insert(k, v),
{
    assert(m.remove(k).insert(k, v) =~= m.insert(k, v));
}

/// The map after the pairs of `ops` have been inserted into `m`, one after
/// the other.
pub open spec fn inserted_all<K, V>(m: Map<K, V>, ops: Seq<(K, V)>) -> Map<K, V>
    decreases ops.len(),
{
    if ops.len() == 0 {
        m
    } else {
        inserted_all(m, ops.drop_last()).insert(ops.last().0, ops.last().1)
    }
}

/// Whatever the order in which pairs with different keys are inserted into
/// an empty map, the map then has each of the keys with its value, and no
/// other key.
pub proof fn lemma_inserted_all<K, V>(ops: Seq<(K, V)>)
    requires
        forall|i: int, j: int| 0 <= i < j < ops.len() ==> (#[trigger] ops[i]).0 != (#[trigger] ops[j]).0,
    ensures
        forall|i: int|
            0 <= i < ops.len() ==> inserted_all(Map::<K, V>::empty(), ops).contains_key(
                (#[trigger] ops[i]).0,
            ) && inserted_all(Map::<K, V>::empty(), ops)[ops[i].0] == ops[i].1,
        forall|k: K|
            inserted_all(Map::<K, V>::empty(), ops).contains_key(k) ==> exists|i: int|
                0 <= i < ops.len() && (#[trigger] ops[i]).0 == k,
    decreases ops.len(),
{
    if ops.len() > 0 {
        let d = ops.drop_last();
        let m = inserted_all(Map::<K, V>::empty(), d);
        let all = inserted_all(Map::<K, V>::empty(), ops);
        assert forall|i: int, j: int| 0 <= i < j < d.len() implies (#[trigger] d[i]).0 != (
        #[trigger] d[j]).0 by {
            assert(ops[i].0 != ops[j].0);
        }
        lemma_inserted_all(d);
        assert forall|i: int| 0 <= i < ops.len() implies all.contains_key((#[trigger] ops[i]).0)
            && all[ops[i].0] == ops[i].1 by {
            if i < ops.len() - 1 {
                assert(d[i] == ops[i]);
                assert(ops[i].0 != ops[ops.len() - 1].0);
            }
        }
        assert forall|k: K| all.contains_key(k) implies exists|i: int|
            0 <= i < ops.len() && (#[trigger] ops[i]).0 == k by {
            if k == ops.last().0 {
                assert(ops[ops.len() - 1].0 == k);
            } else {
                let i = choose|i: int| 0 <= i < d.len() && (#[trigger] d[i]).0 == k;
                assert(ops[i].0 == k);
            }
        }
    }
}

} // verus!
