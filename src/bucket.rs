use vstd::prelude::*;

verus! {

/// `s` with every occurrence of `k` taken out, the other keys in their order.
pub open spec fn without(s: Seq<u64>, k: u64) -> Seq<u64>
    decreases s.len(),
{
    if s.len() == 0 {
        s
    } else {
        let rest = without(s.drop_last(), k);
        if s.last() == k {
            rest
        } else {
            rest.push(s.last())
        }
    }
}

/// A sequence extended by one element holds exactly its members and that element.
proof fn lemma_push_contains(q: Seq<u64>, a: u64)
    ensures
        forall|x: u64| #[trigger] q.push(a).contains(x) <==> (q.contains(x) || x == a),
{
    assert forall|x: u64| #[trigger] q.push(a).contains(x) <==> (q.contains(x) || x == a) by {
        if q.contains(x) {
            let i = choose|i: int| 0 <= i < q.len() && q[i] == x;
            assert(q.push(a)[i] == x);
        }
        if x == a {
            assert(q.push(a)[q.len() as int] == x);
        }
        if q.push(a).contains(x) && x != a {
            let i = choose|i: int| 0 <= i < q.len() + 1 && q.push(a)[i] == x;
            assert(q[i] == x);
        }
    }
}

/// Taking a key out keeps exactly the other members, and keeps them distinct.
pub proof fn lemma_without(s: Seq<u64>, k: u64)
    ensures
        forall|x: u64| #[trigger] without(s, k).contains(x) <==> (s.contains(x) && x != k),
        s.no_duplicates() ==> without(s, k).no_duplicates(),
        !s.contains(k) ==> without(s, k) == s,
    decreases s.len(),
{
    if s.len() > 0 {
        let p = s.drop_last();
        let l = s.last();
        let r = without(p, k);
        lemma_without(p, k);
        assert(s == p.push(l));
        lemma_push_contains(p, l);
        lemma_push_contains(r, l);
        if s.no_duplicates() {
            assert(p.no_duplicates()) by {
                assert forall|i: int, j: int| 0 <= i < j < p.len() implies p[i] != p[j] by {
                    assert(s[i] == p[i] && s[j] == p[j]);
                }
            }
            assert(!p.contains(l)) by {
                if p.contains(l) {
                    let i = choose|i: int| 0 <= i < p.len() && p[i] == l;
                    assert(s[i] == s[s.len() - 1]);
                }
            }
            if l != k {
                assert forall|i: int, j: int| 0 <= i < j < r.push(l).len() implies r.push(l)[i]
                    != r.push(l)[j] by {
                    if j == r.len() {
                        assert(r.contains(r[i]));
                    } else {
                        assert(r[i] != r[j]);
                    }
                }
            }
        }
        if !s.contains(k) {
            assert(!p.contains(k));
            assert(l != k);
        }
    }
}

/// Returns the bucket `keys` without `key`, the other keys in their order.
pub fn without_key(keys: &Vec<u64>, key: u64) -> (r: Vec<u64>)
    ensures
        r@ == without(keys@, key),
{
    let mut r: Vec<u64> = Vec::new();
    let mut i: usize = 0;
    while i < keys.len()
        invariant
            i <= keys@.len(),
            r@ == without(keys@.take(i as int), key),
        decreases keys@.len() - i,
    {
        assert(keys@.take(i as int + 1).drop_last() == keys@.take(i as int));
        if keys[i] != key {
            r.push(keys[i]);
        }
        i = i + 1;
    }
    assert(keys@.take(i as int) == keys@);
    r
}

} // verus!
