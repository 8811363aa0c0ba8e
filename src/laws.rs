use crate::bucket::{lemma_without, without};
use crate::map::{attached, detached, OrderedHashMap};
use crate::store::OrderedStore;
use vstd::prelude::*;

verus! {

/// Every key of a well-formed map stands in the bucket of its order value,
/// at exactly one position, and no bucket is empty. Every operation that
/// changes the map keeps it well formed, so this holds after any sequence of
/// them.
pub proof fn lemma_bijection<V, S: OrderedStore>(m: &OrderedHashMap<V, S>)
    requires
        m.wf(),
    ensures
        forall|k: u64| #[trigger]
            m.view().contains_key(k) ==> {
                let b = m.buckets()[m.view()[k].0];
                &&& m.buckets().contains_key(m.view()[k].0)
                &&& exists|i: int|
                    0 <= i < b.len() && b[i] == k && forall|j: int|
                        0 <= j < b.len() && #[trigger] b[j] == k ==> j == i
            },
        forall|o: u64| #[trigger] m.buckets().contains_key(o) ==> m.buckets()[o].len() > 0,
{
    assert forall|k: u64| #[trigger] m.view().contains_key(k) implies {
        let b = m.buckets()[m.view()[k].0];
        &&& m.buckets().contains_key(m.view()[k].0)
        &&& exists|i: int|
            0 <= i < b.len() && b[i] == k && forall|j: int|
                0 <= j < b.len() && #[trigger] b[j] == k ==> j == i
    } by {
        let b = m.buckets()[m.view()[k].0];
        assert(b.contains(k) && b.no_duplicates());
        let i = choose|i: int| 0 <= i < b.len() && b[i] == k;
        assert(forall|j: int| 0 <= j < b.len() && #[trigger] b[j] == k ==> j == i);
    }
}

/// When a key is inserted again under another order value, it is no longer in
/// the bucket of its former order value, so that bucket never resolves to it.
pub proof fn lemma_insert_leaves_old_bucket<V, S: OrderedStore>(
    m: &OrderedHashMap<V, S>,
    key: u64,
    order: u64,
)
    requires
        m.wf(),
        m.view().contains_key(key),
        m.view()[key].0 != order,
    ensures
        ({
            let old_order = m.view()[key].0;
            let b = attached(detached(m.buckets(), old_order, key), order, key);
            !(b.contains_key(old_order) && b[old_order].contains(key))
        }),
{
    let old_order = m.view()[key].0;
    lemma_without(m.buckets()[old_order], key);
}

/// Removing one of several keys that share an order value keeps the bucket,
/// with the other keys in their order; removing the last one deletes it.
pub proof fn lemma_remove_shrinks_bucket<V, S: OrderedStore>(
    m: &OrderedHashMap<V, S>,
    key: u64,
)
    requires
        m.wf(),
        m.view().contains_key(key),
    ensures
        ({
            let o = m.view()[key].0;
            let b = detached(m.buckets(), o, key);
            &&& (exists|j: u64| j != key && #[trigger] m.buckets()[o].contains(j)) ==> b.contains_key(o)
                && b[o] == without(m.buckets()[o], key)
            &&& m.buckets()[o] == seq![key] ==> !b.contains_key(o)
            &&& b.contains_key(o) ==> !b[o].contains(key)
        }),
{
    let o = m.view()[key].0;
    lemma_without(m.buckets()[o], key);
    if m.buckets()[o] == seq![key] {
        assert(!without(m.buckets()[o], key).contains(key));
        if without(m.buckets()[o], key).len() > 0 {
            let x = without(m.buckets()[o], key)[0];
            assert(without(m.buckets()[o], key).contains(x));
            assert(m.buckets()[o].contains(x));
        }
    }
    if exists|j: u64| j != key && #[trigger] m.buckets()[o].contains(j) {
        let j = choose|j: u64| j != key && #[trigger] m.buckets()[o].contains(j);
        assert(without(m.buckets()[o], key).contains(j));
    }
}

} // verus!
