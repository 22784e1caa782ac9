use vstd::prelude::*;

verus! {

broadcast use vstd::seq_lib::group_to_multiset_ensures;

/// `keys` holds, position by position, a key that `key` gave for each of
/// `values`.
pub open spec fn keys_of<S, K: Fn(S) -> u64>(key: K, values: Seq<S>, keys: Seq<u64>) -> bool {
    &&& keys.len() == values.len()
    &&& forall|i: int| 0 <= i < values.len() ==> #[trigger] key.ensures((values[i],), keys[i])
}

/// The keys never decrease from one position to a later one.
pub open spec fn ascending(keys: Seq<u64>) -> bool {
    forall|i: int, j: int| 0 <= i < j < keys.len() ==> keys[i] <= keys[j]
}

/// Swapping two adjacent values keeps the same values.
proof fn lemma_swap_keeps_values<S>(s: Seq<S>, j: int)
    requires
        0 < j < s.len(),
    ensures
        s.update(j - 1, s[j]).update(j, s[j - 1]).to_multiset() == s.to_multiset(),
{
    broadcast use vstd::multiset::group_multiset_properties;
    broadcast use vstd::seq_lib::to_multiset_update;

    let s1 = s.update(j - 1, s[j]);
    assert(s1[j] == s[j]);
    assert(s1.update(j, s[j - 1]).to_multiset() =~= s.to_multiset());
}

/// The key of each value, as `key` gives it.
pub fn keys_for<S: Copy, K: Fn(S) -> u64>(values: &Vec<S>, key: &K) -> (keys: Vec<u64>)
    requires
        forall|a: S| #[trigger] key.requires((a,)),
    ensures
        keys_of(*key, values@, keys@),
{
    let mut keys: Vec<u64> = Vec::with_capacity(values.len());
    let mut i: usize = 0;
    while i < values.len()
        invariant
            i <= values@.len(),
            keys@.len() == i,
            forall|a: S| #[trigger] key.requires((a,)),
            forall|j: int| 0 <= j < i ==> #[trigger] key.ensures((values@[j],), keys@[j]),
        decreases values@.len() - i,
    {
        let k = key(values[i]);
        keys.push(k);
        i = i + 1;
    }
    keys
}

/// Sorts `values` in place by the keys `key` gives them, by insertion, and
/// returns those keys in the new order: the result holds the same values,
/// with keys that never decrease.
pub fn sort_by_key<S: Copy, K: Fn(S) -> u64>(values: &mut Vec<S>, key: &K) -> (keys: Vec<u64>)
    requires
        forall|a: S| #[trigger] key.requires((a,)),
    ensures
        final(values)@.to_multiset() == old(values)@.to_multiset(),
        keys_of(*key, final(values)@, keys@),
        ascending(keys@),
{
    let mut keys = keys_for(values, key);
    let n = values.len();
    let mut i: usize = 1;
    if n == 0 {
        return keys;
    }
    while i < n
        invariant
            1 <= i <= n,
            n == values@.len(),
            values@.to_multiset() == old(values)@.to_multiset(),
            keys_of(*key, values@, keys@),
            forall|a: int, b: int| 0 <= a < b < i ==> keys@[a] <= keys@[b],
        decreases n - i,
    {
        let mut j: usize = i;
        while j > 0 && keys[j - 1] > keys[j]
            invariant
                0 <= j <= i < n,
                n == values@.len(),
                values@.to_multiset() == old(values)@.to_multiset(),
                keys_of(*key, values@, keys@),
                // the keys before position j, and those after it up to i, are in order
                forall|a: int, b: int| 0 <= a < b <= i && a != j && b != j ==> keys@[a] <= keys@[b],
                // the key at j is no greater than those after it up to i
                forall|b: int| j < b <= i ==> keys@[j as int] <= keys@[b],
            decreases j,
        {
            let prev = values[j - 1];
            let cur = values[j];
            let kp = keys[j - 1];
            let kc = keys[j];
            proof {
                lemma_swap_keeps_values(values@, j as int);
            }
            let ghost vb = values@;
            let ghost kb = keys@;
            values.set(j - 1, cur);
            values.set(j, prev);
            keys.set(j - 1, kc);
            keys.set(j, kp);
            proof {
                assert(values@ == vb.update(j - 1, vb[j as int]).update(j as int, vb[j - 1]));
                assert forall|p: int| 0 <= p < values@.len() implies #[trigger] key.ensures(
                    (values@[p],),
                    keys@[p],
                ) by {
                    if p == j - 1 {
                        assert(key.ensures((vb[j as int],), kb[j as int]));
                    } else if p == j {
                        assert(key.ensures((vb[j - 1],), kb[j - 1]));
                    } else {
                        assert(key.ensures((vb[p],), kb[p]));
                    }
                }
            }
            j = j - 1;
        }
        i = i + 1;
    }
    keys
}

/// `r` holds a least and a greatest of `values` by `keys`, the keys that
/// `key` gave them: the values at positions `lo` and `hi`.
pub open spec fn extremes_outcome<S, K: Fn(S) -> u64>(
    key: K,
    values: Seq<S>,
    keys: Seq<u64>,
    lo: int,
    hi: int,
    r: (S, S),
) -> bool {
    &&& keys_of(key, values, keys)
    &&& 0 <= lo < values.len()
    &&& 0 <= hi < values.len()
    &&& r.0 == values[lo]
    &&& r.1 == values[hi]
    &&& forall|i: int| 0 <= i < values.len() ==> keys[lo] <= #[trigger] keys[i] <= keys[hi]
}

/// Least and greatest of non-empty values by the keys `key` gives them; of
/// values with equal keys, the earliest is taken.
pub fn extremes_by_key<S: Copy, K: Fn(S) -> u64>(values: &Vec<S>, key: &K) -> (r: (S, S))
    requires
        values@.len() > 0,
        forall|a: S| #[trigger] key.requires((a,)),
    ensures
        exists|keys: Seq<u64>, lo: int, hi: int| #[trigger] extremes_outcome(*key, values@, keys, lo, hi, r),
{
    let keys = keys_for(values, key);
    let mut lo: usize = 0;
    let mut hi: usize = 0;
    let mut i: usize = 1;
    while i < values.len()
        invariant
            1 <= i <= values@.len(),
            keys@.len() == values@.len(),
            lo < i,
            hi < i,
            forall|j: int| 0 <= j < i ==> keys@[lo as int] <= #[trigger] keys@[j] <= keys@[hi as int],
        decreases values@.len() - i,
    {
        if keys[i] < keys[lo] {
            lo = i;
        }
        if keys[i] > keys[hi] {
            hi = i;
        }
        i = i + 1;
    }
    let r = (values[lo], values[hi]);
    assert(extremes_outcome(*key, values@, keys@, lo as int, hi as int, r));
    r
}

/// `key` gives each value one key, and different values different keys.
pub open spec fn key_is_exact<S, K: Fn(S) -> u64>(key: K) -> bool {
    forall|a: S, b: S, ka: u64, kb: u64|
        #[trigger] key.ensures((a,), ka) && #[trigger] key.ensures((b,), kb) ==> (ka == kb <==> a
            == b)
}

/// Of a value found in `values`, the key `key` gives is among `keys`.
proof fn lemma_key_found<S, K: Fn(S) -> u64>(
    key: K,
    values: Seq<S>,
    keys: Seq<u64>,
    x: S,
    kx: u64,
) -> (p: int)
    requires
        key_is_exact(key),
        keys_of(key, values, keys),
        values.contains(x),
        key.ensures((x,), kx),
    ensures
        0 <= p < values.len(),
        values[p] == x,
        keys[p] == kx,
{
    let p = choose|p: int| 0 <= p < values.len() && values[p] == x;
    assert(key.ensures((values[p],), keys[p]));
    p
}

/// Two arrangements of the same values whose exact keys never decrease are
/// the same sequence: with such a key, sorting leaves nothing open.
pub proof fn lemma_sorted_is_unique<S, K: Fn(S) -> u64>(
    key: K,
    s1: Seq<S>,
    k1: Seq<u64>,
    s2: Seq<S>,
    k2: Seq<u64>,
)
    requires
        key_is_exact(key),
        keys_of(key, s1, k1),
        keys_of(key, s2, k2),
        ascending(k1),
        ascending(k2),
        s1.to_multiset() == s2.to_multiset(),
    ensures
        s1 == s2,
    decreases s1.len(),
{
    broadcast use vstd::seq_lib::to_multiset_remove;

    if s1.len() == 0 {
        assert(s2.to_multiset().len() == 0);
        assert(s2 =~= s1);
    } else {
        assert(s1.to_multiset().count(s1[0]) > 0);
        assert(s2.contains(s1[0]));
        assert(key.ensures((s1[0],), k1[0]));
        let p = lemma_key_found(key, s2, k2, s1[0], k1[0]);
        assert(s2.len() > 0);
        assert(s2.to_multiset().count(s2[0]) > 0);
        assert(s1.contains(s2[0]));
        assert(key.ensures((s2[0],), k2[0]));
        let q = lemma_key_found(key, s1, k1, s2[0], k2[0]);
        assert(k2[0] <= k2[p]);
        assert(k1[0] <= k1[q]);
        assert(k1[0] == k2[0]);
        assert(s1[0] == s2[0]);
        let t1 = s1.remove(0);
        let t2 = s2.remove(0);
        let u1 = k1.remove(0);
        let u2 = k2.remove(0);
        assert forall|i: int| 0 <= i < t1.len() implies #[trigger] key.ensures((t1[i],), u1[i]) by {
            assert(key.ensures((s1[i + 1],), k1[i + 1]));
        }
        assert forall|i: int| 0 <= i < t2.len() implies #[trigger] key.ensures((t2[i],), u2[i]) by {
            assert(key.ensures((s2[i + 1],), k2[i + 1]));
        }
        assert(ascending(u1)) by {
            assert forall|i: int, j: int| 0 <= i < j < u1.len() implies u1[i] <= u1[j] by {
                assert(k1[i + 1] <= k1[j + 1]);
            }
        }
        assert(ascending(u2)) by {
            assert forall|i: int, j: int| 0 <= i < j < u2.len() implies u2[i] <= u2[j] by {
                assert(k2[i + 1] <= k2[j + 1]);
            }
        }
        assert(t1.to_multiset() == s1.to_multiset().remove(s1[0]));
        assert(t2.to_multiset() == s2.to_multiset().remove(s2[0]));
        lemma_sorted_is_unique(key, t1, u1, t2, u2);
        assert(s1 =~= seq![s1[0]] + t1);
        assert(s2 =~= seq![s2[0]] + t2);
    }
}

/// With an exact key, the least and the greatest value do not depend on the
/// order in which the values come.
pub proof fn lemma_extremes_ignore_order<S, K: Fn(S) -> u64>(
    key: K,
    v1: Seq<S>,
    keys1: Seq<u64>,
    lo1: int,
    hi1: int,
    r1: (S, S),
    v2: Seq<S>,
    keys2: Seq<u64>,
    lo2: int,
    hi2: int,
    r2: (S, S),
)
    requires
        key_is_exact(key),
        v1.to_multiset() == v2.to_multiset(),
        extremes_outcome(key, v1, keys1, lo1, hi1, r1),
        extremes_outcome(key, v2, keys2, lo2, hi2, r2),
    ensures
        r1 == r2,
{
    assert(v1.to_multiset().count(v1[lo1]) > 0);
    assert(v1.to_multiset().count(v1[hi1]) > 0);
    assert(v2.to_multiset().count(v2[lo2]) > 0);
    assert(v2.to_multiset().count(v2[hi2]) > 0);
    assert(key.ensures((v1[lo1],), keys1[lo1]));
    assert(key.ensures((v1[hi1],), keys1[hi1]));
    assert(key.ensures((v2[lo2],), keys2[lo2]));
    assert(key.ensures((v2[hi2],), keys2[hi2]));
    let a = lemma_key_found(key, v2, keys2, v1[lo1], keys1[lo1]);
    let b = lemma_key_found(key, v1, keys1, v2[lo2], keys2[lo2]);
    let c = lemma_key_found(key, v2, keys2, v1[hi1], keys1[hi1]);
    let d = lemma_key_found(key, v1, keys1, v2[hi2], keys2[hi2]);
    assert(keys2[lo2] <= keys2[a]);
    assert(keys1[lo1] <= keys1[b]);
    assert(keys2[c] <= keys2[hi2]);
    assert(keys1[d] <= keys1[hi1]);
}

} // verus!
