use vstd::prelude::*;

verus! {

/// The JSON text of a bucket, as serde_json writes a sequence of integers.
pub uninterp spec fn json_of_keys(keys: Seq<u64>) -> Seq<u8>;

/// The bucket that serde_json reads from a text, if it reads one.
pub uninterp spec fn keys_of_json(bytes: Seq<u8>) -> Option<Seq<u64>>;

/// Relies on `serde_json::to_vec`: the JSON text of the keys. It fails only
/// where a `Serialize` impl fails or a map has non-string keys, neither of
/// which a vector of integers has.
#[verifier::external_body]
fn keys_to_json(keys: &Vec<u64>) -> (r: Vec<u8>)
    ensures
        r@ == json_of_keys(keys@),
{
    match serde_json::to_vec(keys) {
        Ok(bytes) => bytes,
        Err(_) => Vec::new(),
    }
}

/// Relies on `serde_json::from_slice`: the keys read from a JSON text, or
/// `None` where the text is not a sequence of integers that fit in `u64`.
#[verifier::external_body]
fn keys_from_json(bytes: &[u8]) -> (r: Option<Vec<u64>>)
    ensures
        r is None <==> keys_of_json(bytes@) is None,
        r matches Some(ks) ==> keys_of_json(bytes@) == Some(ks@),
{
    serde_json::from_slice(bytes).ok()
}

/// The eight bytes of `o`, most significant first, so that the byte order of
/// two encodings is the numeric order of the values.
pub open spec fn be_bytes(o: u64) -> Seq<u8> {
    seq![
        (o >> 56u64) as u8,
        (o >> 48u64) as u8,
        (o >> 40u64) as u8,
        (o >> 32u64) as u8,
        (o >> 24u64) as u8,
        (o >> 16u64) as u8,
        (o >> 8u64) as u8,
        o as u8,
    ]
}

/// The value of eight bytes, most significant first.
pub open spec fn be_value(b: Seq<u8>) -> u64
    recommends
        b.len() == 8,
{
    ((b[0] as u64) << 56u64) | ((b[1] as u64) << 48u64) | ((b[2] as u64) << 40u64) | ((
    b[3] as u64) << 32u64) | ((b[4] as u64) << 24u64) | ((b[5] as u64) << 16u64) | ((b[6] as u64)
        << 8u64) | (b[7] as u64)
}

/// The storage key of an order value.
pub fn order_to_bytes(o: u64) -> (r: Vec<u8>)
    ensures
        r@ == be_bytes(o),
{
    let r = vec![
        (o >> 56u64) as u8,
        (o >> 48u64) as u8,
        (o >> 40u64) as u8,
        (o >> 32u64) as u8,
        (o >> 24u64) as u8,
        (o >> 16u64) as u8,
        (o >> 8u64) as u8,
        o as u8,
    ];
    assert(r@ =~= be_bytes(o));
    r
}

/// The order value of a storage key, or `None` where it is not eight bytes
/// long.
pub fn order_from_bytes(b: &[u8]) -> (r: Option<u64>)
    ensures
        r is None <==> b@.len() != 8,
        r matches Some(o) ==> o == be_value(b@),
{
    if b.len() != 8 {
        return None;
    }
    Some(
        ((b[0] as u64) << 56u64) | ((b[1] as u64) << 48u64) | ((b[2] as u64) << 40u64) | ((
        b[3] as u64) << 32u64) | ((b[4] as u64) << 24u64) | ((b[5] as u64) << 16u64) | ((
        b[6] as u64) << 8u64) | (b[7] as u64),
    )
}

/// An order value read back from its storage key is the value written.
pub proof fn lemma_order_bytes_round_trip(o: u64)
    ensures
        be_value(be_bytes(o)) == o,
{
    let b = be_bytes(o);
    assert(((((o >> 56u64) as u8) as u64) << 56u64) | ((((o >> 48u64) as u8) as u64) << 48u64)
        | ((((o >> 40u64) as u8) as u64) << 40u64) | ((((o >> 32u64) as u8) as u64) << 32u64) | ((((
    o >> 24u64) as u8) as u64) << 24u64) | ((((o >> 16u64) as u8) as u64) << 16u64) | ((((o
        >> 8u64) as u8) as u64) << 8u64) | ((o as u8) as u64) == o) by (bit_vector);
}

/// `a` comes before `b` in byte order: they agree up to a position where
/// the byte of `a` is smaller.
pub open spec fn bytes_lt(a: Seq<u8>, b: Seq<u8>) -> bool {
    exists|i: int|
        0 <= i < a.len() && i < b.len() && a[i] < b[i] && forall|j: int|
            0 <= j < i ==> a[j] == b[j]
}

/// The storage keys of two order values come in the byte order that a
/// byte-ordered store walks in, whenever the values come in numeric order.
pub proof fn lemma_order_bytes_keep_order(o1: u64, o2: u64)
    requires
        o1 < o2,
    ensures
        bytes_lt(be_bytes(o1), be_bytes(o2)),
{
    let s1 = be_bytes(o1);
    let s2 = be_bytes(o2);
    if ((o1 >> 56u64) as u8) != ((o2 >> 56u64) as u8) {
        assert(
            o1 < o2
                && ((o1 >> 56u64) as u8) != ((o2 >> 56u64) as u8)
                ==> ((o1 >> 56u64) as u8) < ((o2 >> 56u64) as u8)
        ) by (bit_vector);
        assert(forall|j: int| 0 <= j < 0 ==> s1[j] == s2[j]);
        assert(s1[0] < s2[0]);
    } else if ((o1 >> 48u64) as u8) != ((o2 >> 48u64) as u8) {
        assert(
            o1 < o2
                && ((o1 >> 56u64) as u8) == ((o2 >> 56u64) as u8)
                && ((o1 >> 48u64) as u8) != ((o2 >> 48u64) as u8)
                ==> ((o1 >> 48u64) as u8) < ((o2 >> 48u64) as u8)
        ) by (bit_vector);
        assert(forall|j: int| 0 <= j < 1 ==> s1[j] == s2[j]);
        assert(s1[1] < s2[1]);
    } else if ((o1 >> 40u64) as u8) != ((o2 >> 40u64) as u8) {
        assert(
            o1 < o2
                && ((o1 >> 56u64) as u8) == ((o2 >> 56u64) as u8)
                && ((o1 >> 48u64) as u8) == ((o2 >> 48u64) as u8)
                && ((o1 >> 40u64) as u8) != ((o2 >> 40u64) as u8)
                ==> ((o1 >> 40u64) as u8) < ((o2 >> 40u64) as u8)
        ) by (bit_vector);
        assert(forall|j: int| 0 <= j < 2 ==> s1[j] == s2[j]);
        assert(s1[2] < s2[2]);
    } else if ((o1 >> 32u64) as u8) != ((o2 >> 32u64) as u8) {
        assert(
            o1 < o2
                && ((o1 >> 56u64) as u8) == ((o2 >> 56u64) as u8)
                && ((o1 >> 48u64) as u8) == ((o2 >> 48u64) as u8)
                && ((o1 >> 40u64) as u8) == ((o2 >> 40u64) as u8)
                && ((o1 >> 32u64) as u8) != ((o2 >> 32u64) as u8)
                ==> ((o1 >> 32u64) as u8) < ((o2 >> 32u64) as u8)
        ) by (bit_vector);
        assert(forall|j: int| 0 <= j < 3 ==> s1[j] == s2[j]);
        assert(s1[3] < s2[3]);
    } else if ((o1 >> 24u64) as u8) != ((o2 >> 24u64) as u8) {
        assert(
            o1 < o2
                && ((o1 >> 56u64) as u8) == ((o2 >> 56u64) as u8)
                && ((o1 >> 48u64) as u8) == ((o2 >> 48u64) as u8)
                && ((o1 >> 40u64) as u8) == ((o2 >> 40u64) as u8)
                && ((o1 >> 32u64) as u8) == ((o2 >> 32u64) as u8)
                && ((o1 >> 24u64) as u8) != ((o2 >> 24u64) as u8)
                ==> ((o1 >> 24u64) as u8) < ((o2 >> 24u64) as u8)
        ) by (bit_vector);
        assert(forall|j: int| 0 <= j < 4 ==> s1[j] == s2[j]);
        assert(s1[4] < s2[4]);
    } else if ((o1 >> 16u64) as u8) != ((o2 >> 16u64) as u8) {
        assert(
            o1 < o2
                && ((o1 >> 56u64) as u8) == ((o2 >> 56u64) as u8)
                && ((o1 >> 48u64) as u8) == ((o2 >> 48u64) as u8)
                && ((o1 >> 40u64) as u8) == ((o2 >> 40u64) as u8)
                && ((o1 >> 32u64) as u8) == ((o2 >> 32u64) as u8)
                && ((o1 >> 24u64) as u8) == ((o2 >> 24u64) as u8)
                && ((o1 >> 16u64) as u8) != ((o2 >> 16u64) as u8)
                ==> ((o1 >> 16u64) as u8) < ((o2 >> 16u64) as u8)
        ) by (bit_vector);
        assert(forall|j: int| 0 <= j < 5 ==> s1[j] == s2[j]);
        assert(s1[5] < s2[5]);
    } else if ((o1 >> 8u64) as u8) != ((o2 >> 8u64) as u8) {
        assert(
            o1 < o2
                && ((o1 >> 56u64) as u8) == ((o2 >> 56u64) as u8)
                && ((o1 >> 48u64) as u8) == ((o2 >> 48u64) as u8)
                && ((o1 >> 40u64) as u8) == ((o2 >> 40u64) as u8)
                && ((o1 >> 32u64) as u8) == ((o2 >> 32u64) as u8)
                && ((o1 >> 24u64) as u8) == ((o2 >> 24u64) as u8)
                && ((o1 >> 16u64) as u8) == ((o2 >> 16u64) as u8)
                && ((o1 >> 8u64) as u8) != ((o2 >> 8u64) as u8)
                ==> ((o1 >> 8u64) as u8) < ((o2 >> 8u64) as u8)
        ) by (bit_vector);
        assert(forall|j: int| 0 <= j < 6 ==> s1[j] == s2[j]);
        assert(s1[6] < s2[6]);
    } else {
        assert(
            o1 < o2
                && ((o1 >> 56u64) as u8) == ((o2 >> 56u64) as u8)
                && ((o1 >> 48u64) as u8) == ((o2 >> 48u64) as u8)
                && ((o1 >> 40u64) as u8) == ((o2 >> 40u64) as u8)
                && ((o1 >> 32u64) as u8) == ((o2 >> 32u64) as u8)
                && ((o1 >> 24u64) as u8) == ((o2 >> 24u64) as u8)
                && ((o1 >> 16u64) as u8) == ((o2 >> 16u64) as u8)
                && ((o1 >> 8u64) as u8) == ((o2 >> 8u64) as u8)
                ==> (o1 as u8) < (o2 as u8)
        ) by (bit_vector);
        assert(forall|j: int| 0 <= j < 7 ==> s1[j] == s2[j]);
        assert(s1[7] < s2[7]);
    }
}

/// The stored record of a bucket: its order value's key and the JSON text
/// of its keys.
pub fn encode_entry(order: u64, keys: &Vec<u64>) -> (r: (Vec<u8>, Vec<u8>))
    ensures
        r.0@ == be_bytes(order),
        r.1@ == json_of_keys(keys@),
{
    (order_to_bytes(order), keys_to_json(keys))
}

/// The keys of a stored bucket text, or `None` where the text does not hold
/// a sequence of keys.
pub fn decode_bucket(value: &[u8]) -> (r: Option<Vec<u64>>)
    ensures
        r is None <==> keys_of_json(value@) is None,
        r matches Some(ks) ==> keys_of_json(value@) == Some(ks@),
{
    keys_from_json(value)
}

/// The order value and keys of a stored record, or `None` where the key is
/// not eight bytes long or the value does not hold a sequence of keys: a
/// record that cannot be read counts as absent.
pub fn decode_entry(key: &[u8], value: &[u8]) -> (r: Option<(u64, Vec<u64>)>)
    ensures
        r is None <==> key@.len() != 8 || keys_of_json(value@) is None,
        r matches Some((o, ks)) ==> o == be_value(key@) && keys_of_json(value@) == Some(ks@),
{
    match order_from_bytes(key) {
        Some(o) => match keys_from_json(value) {
            Some(ks) => Some((o, ks)),
            None => None,
        },
        None => None,
    }
}

} // verus!
