//! Sequences of keyed values in which a key stands at most once, and the
//! byte-vector helpers that comparing and copying keys needs.
use vstd::prelude::*;

verus! {

/// Where the key `k` first stands in `s`, or -1.
pub open spec fn find_key<K, V>(s: Seq<(K, V)>, k: K) -> int
    decreases s.len(),
{
    if s.len() == 0 {
        -1
    } else if s[0].0 == k {
        0
    } else {
        let r = find_key(s.subrange(1, s.len() as int), k);
        if r < 0 {
            -1
        } else {
            r + 1
        }
    }
}

/// `s` with `e` recorded: it replaces the value of its key, or is appended.
pub open spec fn upsert<K, V>(s: Seq<(K, V)>, e: (K, V)) -> Seq<(K, V)> {
    let i = find_key(s, e.0);
    if i < 0 {
        s.push(e)
    } else {
        s.update(i, e)
    }
}

/// `find_key` is the first index that holds the key.
pub proof fn lemma_find_key<K, V>(s: Seq<(K, V)>, k: K, i: int)
    requires
        0 <= i <= s.len(),
        forall|t: int| 0 <= t < i ==> s[t].0 != k,
        i < s.len() ==> s[i].0 == k,
    ensures
        find_key(s, k) == (if i < s.len() {
            i
        } else {
            -1
        }),
    decreases s.len(),
{
    if s.len() > 0 && i > 0 {
        let rest = s.subrange(1, s.len() as int);
        assert forall|t: int| 0 <= t < i - 1 implies rest[t].0 != k by {
            assert(rest[t] == s[t + 1]);
        }
        if i < s.len() {
            assert(rest[i - 1] == s[i]);
        }
        lemma_find_key(rest, k, i - 1);
    }
}

/// `find_key` is -1 or an index that holds the key, and -1 only where no
/// index holds it.
pub proof fn lemma_find_key_result<K, V>(s: Seq<(K, V)>, k: K)
    ensures
        -1 <= find_key(s, k) < s.len(),
        find_key(s, k) >= 0 ==> s[find_key(s, k)].0 == k,
        find_key(s, k) < 0 ==> forall|t: int| 0 <= t < s.len() ==> #[trigger] s[t].0 != k,
    decreases s.len(),
{
    if s.len() > 0 && s[0].0 != k {
        let rest = s.subrange(1, s.len() as int);
        lemma_find_key_result(rest, k);
        if find_key(rest, k) < 0 {
            assert forall|t: int| 0 <= t < s.len() implies #[trigger] s[t].0 != k by {
                if t > 0 {
                    assert(s[t] == rest[t - 1]);
                }
            }
        } else {
            assert(s[find_key(rest, k) + 1] == rest[find_key(rest, k)]);
        }
    }
}

/// No key stands twice.
pub open spec fn unique_keys<K, V>(s: Seq<(K, V)>) -> bool {
    forall|i: int, j: int|
        0 <= i < s.len() && 0 <= j < s.len() && i != j ==> #[trigger] s[i].0 != #[trigger] s[j].0
}

/// What an upsert holds: the new pair, and the pairs of other keys.
pub proof fn lemma_upsert_contains<K, V>(s: Seq<(K, V)>, e: (K, V))
    requires
        unique_keys(s),
    ensures
        unique_keys(upsert(s, e)),
        forall|x: (K, V)|
            #[trigger] upsert(s, e).contains(x) <==> (x == e || (s.contains(x) && x.0 != e.0)),
{
    lemma_find_key_result(s, e.0);
    let i = find_key(s, e.0);
    let u = upsert(s, e);
    assert forall|x: (K, V)| u.contains(x) <==> (x == e || (s.contains(x) && x.0 != e.0)) by {
        if u.contains(x) {
            let t = choose|t: int| 0 <= t < u.len() && u[t] == x;
            if i >= 0 && t != i {
                assert(s[t] == x);
                assert(s[t].0 != s[i].0);
            }
            if i < 0 && t < s.len() {
                assert(s[t] == x);
            }
        }
        if s.contains(x) && x.0 != e.0 {
            let t = choose|t: int| 0 <= t < s.len() && s[t] == x;
            assert(u[t] == x);
        }
        if x == e {
            if i < 0 {
                assert(u[s.len() as int] == e);
            } else {
                assert(u[i] == e);
            }
        }
    }
}

/// Whether two byte vectors hold the same bytes.
pub fn equal_bytes(a: &Vec<u8>, b: &Vec<u8>) -> (r: bool)
    ensures
        r == (a@ == b@),
{
    if a.len() != b.len() {
        return false;
    }
    let mut i: usize = 0;
    while i < a.len()
        invariant
            i <= a.len() == b.len(),
            forall|t: int| 0 <= t < i ==> a@[t] == b@[t],
        decreases a.len() - i,
    {
        if a[i] != b[i] {
            return false;
        }
        i += 1;
    }
    proof {
        assert(a@ =~= b@);
    }
    true
}

/// The bytes of `l` from index `from` on.
pub fn copy_from(l: &Vec<u8>, from: usize) -> (r: Vec<u8>)
    requires
        from <= l.len(),
    ensures
        r@ == l@.subrange(from as int, l.len() as int),
{
    let mut r: Vec<u8> = Vec::new();
    let mut i: usize = from;
    while i < l.len()
        invariant
            from <= i <= l.len(),
            r@ == l@.subrange(from as int, i as int),
        decreases l.len() - i,
    {
        r.push(l[i]);
        i += 1;
        proof {
            assert(r@ =~= l@.subrange(from as int, i as int));
        }
    }
    r
}

/// A copy of `l`.
pub fn copy_bytes(l: &Vec<u8>) -> (r: Vec<u8>)
    ensures
        r@ == l@,
{
    let r = copy_from(l, 0);
    proof {
        assert(l@.subrange(0, l@.len() as int) =~= l@);
    }
    r
}

} // verus!
