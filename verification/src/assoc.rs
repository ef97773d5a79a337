use vstd::prelude::*;

verus! {

/// Whether some entry of the association sequence carries key `k`.
pub open spec fn has_key<K, V>(s: Seq<(K, V)>, k: K) -> bool {
    exists|i: int| 0 <= i < s.len() && s[i].0 == k
}

/// The index of the entry carrying key `k`; meaningful only when
/// `has_key(s, k)` holds and the keys are unique.
pub open spec fn index_of<K, V>(s: Seq<(K, V)>, k: K) -> int {
    choose|i: int| 0 <= i < s.len() && s[i].0 == k
}

/// The value stored under key `k`; meaningful only when `has_key(s, k)`.
pub open spec fn value_of<K, V>(s: Seq<(K, V)>, k: K) -> V {
    s[index_of(s, k)].1
}

/// No two entries carry the same key.
pub open spec fn unique_keys<K, V>(s: Seq<(K, V)>) -> bool {
    forall|i: int, j: int| 0 <= i < j < s.len() ==> s[i].0 != s[j].0
}

/// The keys, in entry order.
pub open spec fn keys_of<K, V>(s: Seq<(K, V)>) -> Seq<K> {
    s.map_values(|p: (K, V)| p.0)
}

/// With unique keys, the entry found at `index_of` is the only one with
/// its key, so lookups through `index_of`/`value_of` are unambiguous.
pub proof fn lemma_index_of_unique<K, V>(s: Seq<(K, V)>, k: K, i: int)
    requires
        unique_keys(s),
        0 <= i < s.len(),
        s[i].0 == k,
    ensures
        index_of(s, k) == i,
        value_of(s, k) == s[i].1,
        has_key(s, k),
{
    assert(has_key(s, k));
    let j = index_of(s, k);
    if i < j {
        assert(s[i].0 != s[j].0);
    } else if j < i {
        assert(s[j].0 != s[i].0);
    }
}

} // verus!
