use crate::bucket::{lemma_without, without, without_key};
use crate::store::OrderedStore;
use std::collections::HashMap;
use vstd::prelude::*;

verus! {

broadcast use vstd::std_specs::hash::group_hash_axioms;

/// The buckets after `k` is taken out of the bucket of `o`; a bucket left
/// empty is deleted, a bucket of other keys is kept in its order.
pub open spec fn detached(b: Map<u64, Seq<u64>>, o: u64, k: u64) -> Map<u64, Seq<u64>> {
    if b.contains_key(o) {
        let rest = without(b[o], k);
        if rest.len() == 0 {
            b.remove(o)
        } else {
            b.insert(o, rest)
        }
    } else {
        b
    }
}

/// The buckets after `k` is appended to the bucket of `o`, which is created
/// when absent.
pub open spec fn attached(b: Map<u64, Seq<u64>>, o: u64, k: u64) -> Map<u64, Seq<u64>> {
    b.insert(
        o,
        if b.contains_key(o) {
            b[o].push(k)
        } else {
            seq![k]
        },
    )
}

/// The direct index and the buckets agree: every key stands exactly once in
/// the bucket of its order, every bucket is non-empty, and every key in a
/// bucket is indexed under that bucket's order.
pub open spec fn consistent<V>(lookup: Map<u64, (u64, V)>, b: Map<u64, Seq<u64>>) -> bool {
    &&& forall|k: u64| #[trigger]
        lookup.contains_key(k) ==> b.contains_key(lookup[k].0) && b[lookup[k].0].contains(k)
    &&& forall|o: u64| #[trigger] b.contains_key(o) ==> b[o].len() > 0 && b[o].no_duplicates()
    &&& forall|o: u64, k: u64|
        b.contains_key(o) && #[trigger] b[o].contains(k) ==> lookup.contains_key(k) && lookup[k].0
            == o
}

/// Taking an indexed key out of the index and out of its bucket keeps the two
/// in agreement.
pub proof fn lemma_detach_consistent<V>(lookup: Map<u64, (u64, V)>, b: Map<u64, Seq<u64>>, key: u64)
    requires
        consistent(lookup, b),
        lookup.contains_key(key),
    ensures
        consistent(lookup.remove(key), detached(b, lookup[key].0, key)),
{
    let o_old = lookup[key].0;
    let l2 = lookup.remove(key);
    let b2 = detached(b, o_old, key);
    let rest = without(b[o_old], key);
    lemma_without(b[o_old], key);
    assert forall|k: u64| #[trigger] l2.contains_key(k) implies b2.contains_key(l2[k].0)
        && b2[l2[k].0].contains(k) by {
        assert(b[lookup[k].0].contains(k));
        if lookup[k].0 == o_old {
            assert(rest.contains(k));
        }
    }
    assert forall|o: u64, k: u64| b2.contains_key(o) && #[trigger] b2[o].contains(k) implies l2.contains_key(k)
        && l2[k].0 == o by {
        if o == o_old {
            assert(b[o].contains(k));
        } else {
            assert(b[o].contains(k));
        }
    }
}

/// Indexing a key that was not indexed, and appending it to the bucket of its
/// order, keeps the index and the buckets in agreement.
pub proof fn lemma_attach_consistent<V>(
    lookup: Map<u64, (u64, V)>,
    b: Map<u64, Seq<u64>>,
    key: u64,
    order: u64,
    value: V,
)
    requires
        consistent(lookup, b),
        !lookup.contains_key(key),
    ensures
        consistent(lookup.insert(key, (order, value)), attached(b, order, key)),
{
    let l2 = lookup.insert(key, (order, value));
    let b2 = attached(b, order, key);
    let s = if b.contains_key(order) {
        b[order]
    } else {
        Seq::<u64>::empty()
    };
    assert(b2[order] == s.push(key));
    assert(!s.contains(key));
    assert forall|x: u64| #[trigger] s.push(key).contains(x) <==> (s.contains(x) || x == key) by {
        if s.contains(x) {
            let i = choose|i: int| 0 <= i < s.len() && s[i] == x;
            assert(s.push(key)[i] == x);
        }
        if x == key {
            assert(s.push(key)[s.len() as int] == x);
        }
        if s.push(key).contains(x) && x != key {
            let i = choose|i: int| 0 <= i < s.len() + 1 && s.push(key)[i] == x;
            assert(s[i] == x);
        }
    }
    assert forall|k: u64| #[trigger] l2.contains_key(k) implies b2.contains_key(l2[k].0)
        && b2[l2[k].0].contains(k) by {
        if k != key {
            assert(b[lookup[k].0].contains(k));
        }
    }
    assert forall|o: u64| #[trigger] b2.contains_key(o) implies b2[o].len() > 0
        && b2[o].no_duplicates() by {
        if o == order {
            assert forall|i: int, j: int| 0 <= i < j < s.push(key).len() implies s.push(key)[i]
                != s.push(key)[j] by {
                if j == s.len() {
                    assert(s.contains(s[i]));
                } else {
                    assert(s[i] != s[j]);
                }
            }
        }
    }
    assert forall|o: u64, k: u64| b2.contains_key(o) && #[trigger] b2[o].contains(k) implies l2.contains_key(k)
        && l2[k].0 == o by {
        if o == order {
            if k != key {
                assert(s.contains(k));
            }
        } else {
            assert(b[o].contains(k));
        }
    }
}

/// A map from keys to an order value and a value that also keeps its keys in
/// buckets by order value, so that the entry of the smallest or the largest
/// order is found without a scan. Keys that share an order value stand in
/// their bucket in the order in which they joined it.
pub struct OrderedHashMap<V, S: OrderedStore> {
    lookup: HashMap<u64, (u64, V)>,
    order_lookup: S,
}

impl<V, S: OrderedStore> OrderedHashMap<V, S> {
    /// The entries: each key with its order value and value.
    pub closed spec fn view(&self) -> Map<u64, (u64, V)> {
        self.lookup@
    }

    /// The buckets: each order value present with the keys that hold it.
    pub closed spec fn buckets(&self) -> Map<u64, Seq<u64>> {
        self.order_lookup.entries()
    }

    /// The entries and the buckets agree.
    pub open spec fn wf(&self) -> bool {
        consistent(self.view(), self.buckets())
    }

    /// An empty map over an empty order store.
    pub fn new(order: S) -> (r: Self)
        requires
            order.entries() == Map::<u64, Seq<u64>>::empty(),
        ensures
            r.wf(),
            r.view() == Map::<u64, (u64, V)>::empty(),
            r.buckets() == Map::<u64, Seq<u64>>::empty(),
    {
        OrderedHashMap { lookup: HashMap::new(), order_lookup: order }
    }

    /// Takes `key` out of the bucket of `order`.
    fn detach(&mut self, key: u64, order: u64)
        ensures
            final(self).lookup@ == old(self).lookup@,
            final(self).buckets() == detached(old(self).buckets(), order, key),
    {
        match self.order_lookup.remove(&order) {
            Some(keys) => {
                let rest = without_key(&keys, key);
                if rest.len() > 0 {
                    self.order_lookup.insert(order, rest);
                    assert(self.buckets() =~= detached(old(self).buckets(), order, key));
                }
            },
            None => {},
        }
    }

    /// Appends `key` to the bucket of `order`, creating the bucket if absent.
    fn attach(&mut self, key: u64, order: u64)
        ensures
            final(self).lookup@ == old(self).lookup@,
            final(self).buckets() == attached(old(self).buckets(), order, key),
    {
        let keys = match self.order_lookup.remove(&order) {
            Some(ks) => {
                let mut ks = ks;
                ks.push(key);
                ks
            },
            None => {
                let ks = vec![key];
                assert(ks@ =~= seq![key]);
                ks
            },
        };
        self.order_lookup.insert(order, keys);
        assert(self.buckets() =~= attached(old(self).buckets(), order, key));
    }
}

impl<V: Clone, S: OrderedStore> OrderedHashMap<V, S> {
    /// The number of entries (not of buckets).
    pub fn len(&self) -> (r: usize)
        ensures
            r == self.view().len(),
    {
        self.lookup.len()
    }

    /// The order value and value of `key`, if present.
    pub fn get(&self, key: &u64) -> (r: Option<&(u64, V)>)
        ensures
            r is None <==> !self.view().contains_key(*key),
            r matches Some(e) ==> *e == self.view()[*key],
    {
        self.lookup.get(key)
    }

    /// Resolves the first key of a bucket that the store handed out through
    /// the entries.
    fn get_key_value(&self, found: Option<(u64, Vec<u64>)>) -> (r: Option<(u64, u64, V)>)
        requires
            self.wf(),
            found matches Some((o, ks)) ==> self.buckets().contains_key(o) && ks@
                == self.buckets()[o],
        ensures
            r is None <==> found is None,
            r matches Some((k, o, v)) ==> found matches Some((fo, ks)) && o == fo && k == ks@[0]
                && self.view().contains_key(k) && self.view()[k].0 == o && vstd::pervasive::cloned(
                self.view()[k].1,
                v,
            ),
    {
        match found {
            Some((o, keys)) => {
                proof {
                    assert(self.buckets()[o].contains(keys@[0]));
                }
                let key = keys[0];
                match self.lookup.get(&key) {
                    Some(e) => Some((key, e.0, e.1.clone())),
                    None => None,
                }
            },
            None => None,
        }
    }

    /// The entry of the smallest order value; among keys that share it, the
    /// one that joined its bucket first.
    pub fn get_first_key_value(&self) -> (r: Option<(u64, u64, V)>)
        requires
            self.wf(),
        ensures
            r is None <==> self.view().dom().is_empty(),
            r matches Some((k, o, v)) ==> {
                &&& self.view().contains_key(k)
                &&& self.view()[k].0 == o
                &&& vstd::pervasive::cloned(self.view()[k].1, v)
                &&& self.buckets()[o][0] == k
                &&& forall|j: u64| #[trigger] self.view().contains_key(j) ==> o <= self.view()[j].0
            },
    {
        let found = self.order_lookup.first_key_value();
        proof {
            if !self.view().dom().is_empty() {
                let k = choose|k: u64| self.view().dom().contains(k);
                assert(self.buckets().contains_key(self.view()[k].0));
            }
        }
        let r = self.get_key_value(found);
        proof {
            if let Some((_, o, _)) = r {
                assert forall|j: u64| #[trigger] self.view().contains_key(j) implies o
                    <= self.view()[j].0 by {
                    assert(self.buckets().contains_key(self.view()[j].0));
                }
            }
        }
        r
    }

    /// The entry of the largest order value; among keys that share it, the
    /// one that joined its bucket first.
    pub fn get_last_key_value(&self) -> (r: Option<(u64, u64, V)>)
        requires
            self.wf(),
        ensures
            r is None <==> self.view().dom().is_empty(),
            r matches Some((k, o, v)) ==> {
                &&& self.view().contains_key(k)
                &&& self.view()[k].0 == o
                &&& vstd::pervasive::cloned(self.view()[k].1, v)
                &&& self.buckets()[o][0] == k
                &&& forall|j: u64| #[trigger] self.view().contains_key(j) ==> self.view()[j].0 <= o
            },
    {
        let found = self.order_lookup.last_key_value();
        proof {
            if !self.view().dom().is_empty() {
                let k = choose|k: u64| self.view().dom().contains(k);
                assert(self.buckets().contains_key(self.view()[k].0));
            }
        }
        let r = self.get_key_value(found);
        proof {
            if let Some((_, o, _)) = r {
                assert forall|j: u64| #[trigger] self.view().contains_key(j) implies self.view()[j].0
                    <= o by {
                    assert(self.buckets().contains_key(self.view()[j].0));
                }
            }
        }
        r
    }

    /// Gives `key` the value `value` and the order value `order`: the key
    /// leaves the bucket of its former order, if it had one, and is appended
    /// to the bucket of `order`. Returns the former value.
    pub fn insert(&mut self, key: u64, value: V, order: u64) -> (r: Option<V>)
        requires
            old(self).wf(),
        ensures
            final(self).wf(),
            final(self).view() == old(self).view().insert(key, (order, value)),
            r is None <==> !old(self).view().contains_key(key),
            r matches Some(v) ==> v == old(self).view()[key].1,
            final(self).buckets() == attached(
                if old(self).view().contains_key(key) {
                    detached(old(self).buckets(), old(self).view()[key].0, key)
                } else {
                    old(self).buckets()
                },
                order,
                key,
            ),
    {
        let prev: Option<u64> = match self.lookup.get(&key) {
            Some(e) => Some(e.0),
            None => None,
        };
        if let Some(old_order) = prev {
            self.detach(key, old_order);
            proof {
                lemma_detach_consistent(old(self).view(), old(self).buckets(), key);
            }
        }
        proof {
            assert(old(self).view().remove(key) =~= self.view().remove(key));
            if prev is None {
                assert(self.view().remove(key) =~= self.view());
            }
            lemma_attach_consistent(self.view().remove(key), self.buckets(), key, order, value);
            assert(self.view().remove(key).insert(key, (order, value)) =~= self.view().insert(
                key,
                (order, value),
            ));
        }
        self.attach(key, order);
        match self.lookup.insert(key, (order, value)) {
            Some(e) => Some(e.1),
            None => None,
        }
    }

    /// Removes `key`, and takes it out of its bucket; a bucket left empty is
    /// deleted. Returns the order value and value it had.
    pub fn remove(&mut self, key: &u64) -> (r: Option<(u64, V)>)
        requires
            old(self).wf(),
        ensures
            final(self).wf(),
            final(self).view() == old(self).view().remove(*key),
            r is None <==> !old(self).view().contains_key(*key),
            r matches Some(e) ==> e == old(self).view()[*key],
            final(self).buckets() == if old(self).view().contains_key(*key) {
                detached(old(self).buckets(), old(self).view()[*key].0, *key)
            } else {
                old(self).buckets()
            },
    {
        match self.lookup.remove(key) {
            Some(e) => {
                let (order, v) = e;
                self.detach(*key, order);
                proof {
                    lemma_detach_consistent(old(self).view(), old(self).buckets(), *key);
                }
                Some((order, v))
            },
            None => {
                proof {
                    assert(self.view() =~= old(self).view());
                }
                None
            },
        }
    }

    /// Removes the entry of the smallest order value; among keys that share
    /// it, the one that joined its bucket first.
    pub fn remove_first(&mut self) -> (r: Option<(u64, u64, V)>)
        requires
            old(self).wf(),
        ensures
            final(self).wf(),
            r is None <==> old(self).view().dom().is_empty(),
            r is None ==> final(self).view() == old(self).view(),
            r matches Some((k, o, v)) ==> {
                &&& old(self).view().contains_key(k)
                &&& old(self).view()[k] == (o, v)
                &&& old(self).buckets()[o][0] == k
                &&& forall|j: u64| #[trigger]
                    old(self).view().contains_key(j) ==> o <= old(self).view()[j].0
                &&& final(self).view() == old(self).view().remove(k)
                &&& final(self).buckets() == detached(old(self).buckets(), o, k)
            },
    {
        match self.get_first_key_value() {
            Some((k, _, _)) => match self.remove(&k) {
                Some((o, v)) => Some((k, o, v)),
                None => None,
            },
            None => None,
        }
    }

    /// Removes the entry of the largest order value; among keys that share
    /// it, the one that joined its bucket first.
    pub fn remove_last(&mut self) -> (r: Option<(u64, u64, V)>)
        requires
            old(self).wf(),
        ensures
            final(self).wf(),
            r is None <==> old(self).view().dom().is_empty(),
            r is None ==> final(self).view() == old(self).view(),
            r matches Some((k, o, v)) ==> {
                &&& old(self).view().contains_key(k)
                &&& old(self).view()[k] == (o, v)
                &&& old(self).buckets()[o][0] == k
                &&& forall|j: u64| #[trigger]
                    old(self).view().contains_key(j) ==> old(self).view()[j].0 <= o
                &&& final(self).view() == old(self).view().remove(k)
                &&& final(self).buckets() == detached(old(self).buckets(), o, k)
            },
    {
        match self.get_last_key_value() {
            Some((k, _, _)) => match self.remove(&k) {
                Some((o, v)) => Some((k, o, v)),
                None => None,
            },
            None => None,
        }
    }

    /// Moves `key` to the order value `new_order`, keeping its value: it
    /// leaves its bucket and is appended to the bucket of `new_order`. Does
    /// nothing when `key` is absent.
    pub fn re_order(&mut self, key: &u64, new_order: u64)
        requires
            old(self).wf(),
        ensures
            final(self).wf(),
            old(self).view().contains_key(*key) ==> final(self).view() == old(self).view().insert(
                *key,
                (new_order, old(self).view()[*key].1),
            ) && final(self).buckets() == attached(
                detached(old(self).buckets(), old(self).view()[*key].0, *key),
                new_order,
                *key,
            ),
            !old(self).view().contains_key(*key) ==> final(self).view() == old(self).view()
                && final(self).buckets() == old(self).buckets(),
    {
        match self.remove(key) {
            Some(e) => {
                let (_, value) = e;
                self.insert(*key, value, new_order);
                proof {
                    assert(old(self).view().remove(*key).insert(*key, (new_order, value))
                        =~= old(self).view().insert(*key, (new_order, value)));
                }
            },
            None => {},
        }
    }
}

} // verus!
