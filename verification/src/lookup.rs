//! Finding the first entry with a given key in a sequence of keys.

use vstd::prelude::*;

verus! {

/// `i` is the position of the first occurrence of `k` in `keys`.
pub open spec fn is_first<K>(keys: Seq<K>, k: K, i: int) -> bool {
    &&& 0 <= i < keys.len()
    &&& keys[i] == k
    &&& forall|j: int| 0 <= j < i ==> keys[j] != k
}

/// The position of the first occurrence of `k` in `keys`, if there is one.
pub open spec fn first_index<K>(keys: Seq<K>, k: K) -> Option<int> {
    if exists|i: int| is_first(keys, k, i) {
        Some(choose|i: int| is_first(keys, k, i))
    } else {
        None
    }
}

/// A first occurrence is what `first_index` finds.
pub proof fn lemma_first_found<K>(keys: Seq<K>, k: K, i: int)
    requires
        is_first(keys, k, i),
    ensures
        first_index(keys, k) == Some(i),
{
    let c = choose|i: int| is_first(keys, k, i);
    assert(is_first(keys, k, c));
    if c < i {
        assert(keys[c] != k);
    } else if i < c {
        assert(keys[i] != k);
    }
}

/// Where `k` does not occur, `first_index` finds nothing.
pub proof fn lemma_first_absent<K>(keys: Seq<K>, k: K)
    requires
        forall|j: int| 0 <= j < keys.len() ==> keys[j] != k,
    ensures
        first_index(keys, k) is None,
{
}

/// What `first_index` says of its result.
pub proof fn lemma_first_index<K>(keys: Seq<K>, k: K)
    ensures
        match first_index(keys, k) {
            Some(i) => is_first(keys, k, i),
            None => forall|j: int| 0 <= j < keys.len() ==> keys[j] != k,
        },
{
    if first_index(keys, k) is None {
        assert forall|j: int| 0 <= j < keys.len() implies keys[j] != k by {
            if keys[j] == k {
                lemma_least(keys, k, j);
            }
        }
    }
}

/// An occurrence of `k` at `j` yields a first occurrence at or before `j`.
pub proof fn lemma_least<K>(keys: Seq<K>, k: K, j: int)
    requires
        0 <= j < keys.len(),
        keys[j] == k,
    ensures
        exists|i: int| is_first(keys, k, i) && i <= j,
    decreases j,
{
    if exists|m: int| 0 <= m < j && keys[m] == k {
        let m = choose|m: int| 0 <= m < j && keys[m] == k;
        lemma_least(keys, k, m);
    } else {
        assert(is_first(keys, k, j));
    }
}

} // verus!
