use ordered_hash_map::{OrderedHashMap, OrderedStore};
use std::collections::BTreeMap;

const X: u64 = 1;
const Y: u64 = 2;
const Z: u64 = 3;

fn volatile() -> OrderedHashMap<u64, BTreeMap<u64, Vec<u64>>> {
    OrderedHashMap::new(BTreeMap::new())
}

fn three_entries() -> OrderedHashMap<u64, BTreeMap<u64, Vec<u64>>> {
    let mut m = volatile();
    assert_eq!(m.insert(X, 1, 10), None);
    assert_eq!(m.insert(Y, 2, 5), None);
    assert_eq!(m.insert(Z, 3, 10), None);
    m
}

#[test]
fn first_last_and_remove_first() {
    let mut m = three_entries();
    assert_eq!(m.len(), 3);
    assert_eq!(m.get_first_key_value(), Some((Y, 5, 2)));
    assert_eq!(m.get_last_key_value(), Some((X, 10, 1)));
    assert_eq!(m.remove_first(), Some((Y, 5, 2)));
    assert_eq!(m.len(), 2);
    assert_eq!(m.get(&Y), None);
    assert_eq!(m.get_first_key_value(), Some((X, 10, 1)));
}

#[test]
fn re_order_moves_key_to_new_bucket() {
    let mut m = three_entries();
    assert_eq!(m.remove_first(), Some((Y, 5, 2)));
    m.re_order(&X, 1);
    assert_eq!(m.get(&X), Some(&(1, 1)));
    assert_eq!(m.get_first_key_value(), Some((X, 1, 1)));
    // bucket 10 now holds only Z
    assert_eq!(m.get_last_key_value(), Some((Z, 10, 3)));
    assert_eq!(m.remove(&Z), Some((10, 3)));
    assert_eq!(m.get_last_key_value(), Some((X, 1, 1)));
}

#[test]
fn re_order_of_absent_key_does_nothing() {
    let mut m = three_entries();
    m.re_order(&42, 1);
    assert_eq!(m.len(), 3);
    assert_eq!(m.get(&42), None);
    assert_eq!(m.get_first_key_value(), Some((Y, 5, 2)));
}

#[test]
fn insert_overwrite_leaves_old_bucket() {
    let mut m = volatile();
    m.insert(X, 1, 10);
    m.insert(Y, 2, 10);
    assert_eq!(m.insert(X, 7, 20), Some(1));
    assert_eq!(m.len(), 2);
    assert_eq!(m.get(&X), Some(&(20, 7)));
    assert_eq!(m.get_first_key_value(), Some((Y, 10, 2)));
    assert_eq!(m.get_last_key_value(), Some((X, 20, 7)));
    assert_eq!(m.remove(&Y), Some((10, 2)));
    assert_eq!(m.get_first_key_value(), Some((X, 20, 7)));
}

#[test]
fn insert_same_order_moves_key_to_back_of_bucket() {
    let mut m = volatile();
    m.insert(X, 1, 10);
    m.insert(Y, 2, 10);
    assert_eq!(m.insert(X, 3, 10), Some(1));
    assert_eq!(m.get_first_key_value(), Some((Y, 10, 2)));
    assert_eq!(m.len(), 2);
}

#[test]
fn remove_shrinks_bucket_until_last_key() {
    let mut m = volatile();
    m.insert(X, 1, 10);
    m.insert(Y, 2, 10);
    m.insert(Z, 3, 10);
    assert_eq!(m.remove(&Y), Some((10, 2)));
    assert_eq!(m.get_first_key_value(), Some((X, 10, 1)));
    assert_eq!(m.remove(&X), Some((10, 1)));
    assert_eq!(m.get_first_key_value(), Some((Z, 10, 3)));
    assert_eq!(m.remove(&Z), Some((10, 3)));
    assert_eq!(m.get_first_key_value(), None);
    assert_eq!(m.len(), 0);
}

#[test]
fn empty_map_has_no_extremes() {
    let mut m = volatile();
    assert_eq!(m.len(), 0);
    assert_eq!(m.get(&X), None);
    assert_eq!(m.get_first_key_value(), None);
    assert_eq!(m.get_last_key_value(), None);
    assert_eq!(m.remove(&X), None);
    assert_eq!(m.remove_first(), None);
    assert_eq!(m.remove_last(), None);
}

#[test]
fn remove_last_takes_largest_order() {
    let mut m = three_entries();
    assert_eq!(m.remove_last(), Some((X, 10, 1)));
    assert_eq!(m.remove_last(), Some((Z, 10, 3)));
    assert_eq!(m.remove_last(), Some((Y, 5, 2)));
    assert_eq!(m.remove_last(), None);
}

#[test]
fn extremes_hold_after_mixed_operations() {
    let mut m = volatile();
    for k in 0u64..20 {
        m.insert(k, k * 100, (k * 7) % 11);
    }
    m.re_order(&3, 0);
    m.remove(&14);
    m.insert(5, 9, 50);
    let (k, o, v) = m.get_first_key_value().unwrap();
    assert_eq!((k, o, v), (0, 0, 0));
    let (k, o, v) = m.get_last_key_value().unwrap();
    assert_eq!((k, o, v), (5, 50, 9));
    assert_eq!(m.len(), 19);
    let mut last_order = 0;
    let mut seen = 0;
    while let Some((k, o, _)) = m.remove_first() {
        assert!(o >= last_order);
        assert_eq!(m.get(&k), None);
        last_order = o;
        seen += 1;
    }
    assert_eq!(seen, 19);
    assert_eq!(m.len(), 0);
}

#[test]
fn volatile_store_replaces_buckets() {
    let mut s: BTreeMap<u64, Vec<u64>> = BTreeMap::new();
    assert_eq!(OrderedStore::len(&s), 0);
    assert_eq!(OrderedStore::first_key_value(&s), None);
    assert_eq!(OrderedStore::insert(&mut s, 5, vec![1, 2]), None);
    assert_eq!(OrderedStore::insert(&mut s, 3, vec![4]), None);
    assert_eq!(OrderedStore::insert(&mut s, 5, vec![2]), Some(vec![1, 2]));
    assert_eq!(OrderedStore::len(&s), 2);
    assert_eq!(OrderedStore::get(&s, &5), Some(vec![2]));
    assert_eq!(OrderedStore::first_key_value(&s), Some((3, vec![4])));
    assert_eq!(OrderedStore::last_key_value(&s), Some((5, vec![2])));
    assert_eq!(OrderedStore::remove(&mut s, &3), Some(vec![4]));
    assert_eq!(OrderedStore::remove(&mut s, &3), None);
    assert_eq!(OrderedStore::get(&s, &3), None);
}
