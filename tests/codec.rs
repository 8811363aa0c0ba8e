use ordered_hash_map::codec::{
    decode_bucket, decode_entry, encode_entry, order_from_bytes, order_to_bytes,
};

#[test]
fn entry_round_trip_keeps_key_order() {
    let (k, v) = encode_entry(5, &vec![11, 7]);
    assert_eq!(decode_entry(&k, &v), Some((5, vec![11, 7])));
    assert_eq!(decode_bucket(&v), Some(vec![11, 7]));
}

#[test]
fn bucket_text_is_json() {
    let (_, v) = encode_entry(1, &vec![1, 2, 3]);
    assert_eq!(v, b"[1,2,3]".to_vec());
}

#[test]
fn order_bytes_are_big_endian() {
    assert_eq!(order_to_bytes(0x0102030405060708), vec![1, 2, 3, 4, 5, 6, 7, 8]);
    assert_eq!(order_from_bytes(&[1, 2, 3, 4, 5, 6, 7, 8]), Some(0x0102030405060708));
    assert_eq!(order_from_bytes(&order_to_bytes(u64::MAX)), Some(u64::MAX));
    assert!(order_to_bytes(255) < order_to_bytes(256));
    assert!(order_to_bytes((1u64 << 56) - 1) < order_to_bytes(1u64 << 56));
    assert!(order_to_bytes(u64::MAX - 1) < order_to_bytes(u64::MAX));
}

#[test]
fn unreadable_records_count_as_absent() {
    assert_eq!(order_from_bytes(&[1, 2, 3]), None);
    assert_eq!(decode_bucket(b"not json"), None);
    assert_eq!(decode_bucket(b"[-1]"), None);
    assert_eq!(decode_entry(&[0, 0, 0, 0, 0, 0, 0, 5], b"{}"), None);
    assert_eq!(decode_entry(&[5], b"[1]"), None);
}
