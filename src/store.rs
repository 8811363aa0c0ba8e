use std::collections::BTreeMap;
use vstd::prelude::*;

verus! {

broadcast use vstd::std_specs::btree::group_btree_axioms;

/// An ordered associative container from an order value to the bucket of keys
/// that share it. The store replaces buckets as a whole: merging a key into an
/// existing bucket is the caller's work.
pub trait OrderedStore: Sized {
    /// What the store holds: each order value present, with its bucket.
    spec fn entries(&self) -> Map<u64, Seq<u64>>;

    /// The number of distinct order values held.
    fn len(&self) -> (r: usize)
        ensures
            r == self.entries().len(),
    ;

    /// The smallest order value and its bucket, or `None` when empty.
    fn first_key_value(&self) -> (r: Option<(u64, Vec<u64>)>)
        ensures
            r is None <==> self.entries().dom().is_empty(),
            r matches Some((o, ks)) ==> self.entries().contains_key(o) && ks@
                == self.entries()[o] && forall|p: u64| #[trigger]
                self.entries().contains_key(p) ==> o <= p,
    ;

    /// The largest order value and its bucket, or `None` when empty.
    fn last_key_value(&self) -> (r: Option<(u64, Vec<u64>)>)
        ensures
            r is None <==> self.entries().dom().is_empty(),
            r matches Some((o, ks)) ==> self.entries().contains_key(o) && ks@
                == self.entries()[o] && forall|p: u64| #[trigger]
                self.entries().contains_key(p) ==> p <= o,
    ;

    /// The bucket of exactly `key`, if present.
    fn get(&self, key: &u64) -> (r: Option<Vec<u64>>)
        ensures
            r is None <==> !self.entries().contains_key(*key),
            r matches Some(ks) ==> ks@ == self.entries()[*key],
    ;

    /// Replaces the bucket of `key` with `value`, returning the one it held.
    fn insert(&mut self, key: u64, value: Vec<u64>) -> (r: Option<Vec<u64>>)
        ensures
            final(self).entries() == old(self).entries().insert(key, value@),
            r is None <==> !old(self).entries().contains_key(key),
            r matches Some(ks) ==> ks@ == old(self).entries()[key],
    ;

    /// Deletes the bucket of `key`, returning it if it was present.
    fn remove(&mut self, key: &u64) -> (r: Option<Vec<u64>>)
        ensures
            final(self).entries() == old(self).entries().remove(*key),
            r is None <==> !old(self).entries().contains_key(*key),
            r matches Some(ks) ==> ks@ == old(self).entries()[*key],
    ;
}

/// Relies on `BTreeMap::first_key_value`: the entry with the smallest key.
#[verifier::external_body]
fn btree_first(m: &BTreeMap<u64, Vec<u64>>) -> (r: Option<(u64, Vec<u64>)>)
    ensures
        r is None <==> m@.dom().is_empty(),
        r matches Some((o, ks)) ==> m@.contains_key(o) && ks@ == m@[o]@ && forall|p: u64| #[trigger]
            m@.contains_key(p) ==> o <= p,
{
    m.first_key_value().map(|(o, ks)| (*o, ks.clone()))
}

/// Relies on `BTreeMap::last_key_value`: the entry with the largest key.
#[verifier::external_body]
fn btree_last(m: &BTreeMap<u64, Vec<u64>>) -> (r: Option<(u64, Vec<u64>)>)
    ensures
        r is None <==> m@.dom().is_empty(),
        r matches Some((o, ks)) ==> m@.contains_key(o) && ks@ == m@[o]@ && forall|p: u64| #[trigger]
            m@.contains_key(p) ==> p <= o,
{
    m.last_key_value().map(|(o, ks)| (*o, ks.clone()))
}

/// The buckets of a map from order values to key vectors.
pub open spec fn btree_entries(m: Map<u64, Vec<u64>>) -> Map<u64, Seq<u64>> {
    m.map_values(|ks: Vec<u64>| ks@)
}

/// An empty in-memory map holds no buckets, as `OrderedHashMap::new` asks
/// of the store it is given.
pub broadcast proof fn lemma_btree_entries_empty(m: Map<u64, Vec<u64>>)
    ensures
        m == Map::<u64, Vec<u64>>::empty() ==> #[trigger] btree_entries(m) == Map::<
            u64,
            Seq<u64>,
        >::empty(),
{
    if m == Map::<u64, Vec<u64>>::empty() {
        assert(btree_entries(m) =~= Map::<u64, Seq<u64>>::empty());
    }
}

/// The volatile store: an in-memory ordered map.
impl OrderedStore for BTreeMap<u64, Vec<u64>> {
    open spec fn entries(&self) -> Map<u64, Seq<u64>> {
        btree_entries(self@)
    }

    fn len(&self) -> (r: usize) {
        let r = BTreeMap::len(self);
        assert(self.entries().dom() =~= self@.dom());
        r
    }

    fn first_key_value(&self) -> (r: Option<(u64, Vec<u64>)>) {
        assert(self.entries().dom() =~= self@.dom());
        btree_first(self)
    }

    fn last_key_value(&self) -> (r: Option<(u64, Vec<u64>)>) {
        assert(self.entries().dom() =~= self@.dom());
        btree_last(self)
    }

    fn get(&self, key: &u64) -> (r: Option<Vec<u64>>) {
        match BTreeMap::get(self, key) {
            Some(ks) => Some(ks.clone()),
            None => None,
        }
    }

    fn insert(&mut self, key: u64, value: Vec<u64>) -> (r: Option<Vec<u64>>) {
        let ghost v = value@;
        let r = BTreeMap::insert(self, key, value);
        assert(self.entries() =~= old(self).entries().insert(key, v));
        r
    }

    fn remove(&mut self, key: &u64) -> (r: Option<Vec<u64>>) {
        let r = BTreeMap::remove(self, key);
        assert(self.entries() =~= old(self).entries().remove(*key));
        r
    }
}

} // verus!
