//! Association sequences keyed by account identifier.
//!
//! Both the ledger (account -> balance) and the stream registry
//! (account -> list of streams) are sequences of key/value pairs with
//! pairwise distinct keys. The spec functions here give such a sequence its
//! mapping reading, and the lemmas relate that reading to the sequence
//! operations the executable code performs.

use vstd::prelude::*;

verus! {

/// No key occurs twice.
pub open spec fn keys_distinct<V>(s: Seq<(u64, V)>) -> bool {
    forall|i: int, j: int| 0 <= i < j < s.len() ==> s[i].0 != s[j].0
}

/// Some pair carries the key `k`.
pub open spec fn has_key<V>(s: Seq<(u64, V)>, k: u64) -> bool {
    exists|i: int| 0 <= i < s.len() && s[i].0 == k
}

/// Position of the first pair carrying the key `k`.
pub open spec fn key_index<V>(s: Seq<(u64, V)>, k: u64) -> int
    decreases s.len(),
{
    if s.len() == 0 {
        0
    } else if s[0].0 == k {
        0
    } else {
        1 + key_index(s.drop_first(), k)
    }
}

/// The value the sequence associates with `k`: the value of the first pair
/// carrying `k`, or `d` where no pair does.
pub open spec fn value_of<V>(s: Seq<(u64, V)>, k: u64, d: V) -> V {
    if has_key(s, k) {
        s[key_index(s, k)].1
    } else {
        d
    }
}

/// `key_index` points at the first pair carrying the key.
pub proof fn lemma_key_index_props<V>(s: Seq<(u64, V)>, k: u64)
    requires
        has_key(s, k),
    ensures
        0 <= key_index(s, k) < s.len(),
        s[key_index(s, k)].0 == k,
        forall|j: int| 0 <= j < key_index(s, k) ==> s[j].0 != k,
    decreases s.len(),
{
    if s.len() == 0 {
    } else if s[0].0 == k {
    } else {
        let rest = s.drop_first();
        assert(has_key(rest, k)) by {
            let i = choose|i: int| 0 <= i < s.len() && s[i].0 == k;
            assert(rest[i - 1] == s[i]);
        }
        lemma_key_index_props(rest, k);
        assert forall|j: int| 0 <= j < key_index(s, k) implies s[j].0 != k by {
            if j > 0 {
                assert(s[j] == rest[j - 1]);
            }
        }
    }
}

/// A pair carrying `k` with no earlier pair carrying it stands exactly at
/// `key_index`.
pub proof fn lemma_key_index_first<V>(s: Seq<(u64, V)>, k: u64, i: int)
    requires
        0 <= i < s.len(),
        s[i].0 == k,
        forall|j: int| 0 <= j < i ==> s[j].0 != k,
    ensures
        has_key(s, k),
        key_index(s, k) == i,
{
    assert(has_key(s, k));
    lemma_key_index_props(s, k);
    let ki = key_index(s, k);
    if ki < i {
        assert(s[ki].0 != k);
    } else if ki > i {
        assert(s[i].0 != k);
    }
}

/// Replacing the pair at the key's own position changes the associated value
/// there and nowhere else.
pub proof fn lemma_value_of_update<V>(s: Seq<(u64, V)>, k: u64, v: V, k2: u64, d: V)
    requires
        has_key(s, k),
        keys_distinct(s),
    ensures
        keys_distinct(s.update(key_index(s, k), (k, v))),
        has_key(s.update(key_index(s, k), (k, v)), k2) == has_key(s, k2),
        value_of(s.update(key_index(s, k), (k, v)), k2, d) == if k2 == k {
            v
        } else {
            value_of(s, k2, d)
        },
{
    lemma_key_index_props(s, k);
    let i = key_index(s, k);
    let s2 = s.update(i, (k, v));
    assert(forall|j: int| 0 <= j < s.len() ==> s2[j].0 == s[j].0);
    if k2 == k {
        lemma_key_index_first(s2, k, i);
    } else {
        if has_key(s, k2) {
            lemma_key_index_props(s, k2);
            let i2 = key_index(s, k2);
            lemma_key_index_first(s2, k2, i2);
            assert(s2[i2] == s[i2]);
        } else {
            assert(!has_key(s2, k2)) by {
                if has_key(s2, k2) {
                    let j = choose|j: int| 0 <= j < s2.len() && s2[j].0 == k2;
                    assert(s[j].0 == k2);
                }
            }
        }
    }
}

/// Appending a pair with a fresh key changes the associated value at that key
/// and nowhere else.
pub proof fn lemma_value_of_push<V>(s: Seq<(u64, V)>, k: u64, v: V, k2: u64, d: V)
    requires
        !has_key(s, k),
        keys_distinct(s),
    ensures
        keys_distinct(s.push((k, v))),
        has_key(s.push((k, v)), k2) == (k2 == k || has_key(s, k2)),
        value_of(s.push((k, v)), k2, d) == if k2 == k {
            v
        } else {
            value_of(s, k2, d)
        },
{
    let s2 = s.push((k, v));
    assert(forall|j: int| 0 <= j < s.len() ==> s2[j] == s[j]);
    assert(s2[s.len() as int].0 == k);
    if k2 == k {
        lemma_key_index_first(s2, k, s.len() as int);
    } else {
        if has_key(s, k2) {
            lemma_key_index_props(s, k2);
            let i2 = key_index(s, k2);
            lemma_key_index_first(s2, k2, i2);
        } else {
            assert(!has_key(s2, k2)) by {
                if has_key(s2, k2) {
                    let j = choose|j: int| 0 <= j < s2.len() && s2[j].0 == k2;
                    assert(j < s.len() ==> s[j].0 == k2);
                }
            }
        }
    }
}

/// Removing the pair at the key's own position leaves the key unassociated
/// and every other key's value unchanged.
pub proof fn lemma_value_of_remove<V>(s: Seq<(u64, V)>, k: u64, k2: u64, d: V)
    requires
        has_key(s, k),
        keys_distinct(s),
    ensures
        keys_distinct(s.remove(key_index(s, k))),
        has_key(s.remove(key_index(s, k)), k2) == (k2 != k && has_key(s, k2)),
        value_of(s.remove(key_index(s, k)), k2, d) == if k2 == k {
            d
        } else {
            value_of(s, k2, d)
        },
{
    lemma_key_index_props(s, k);
    let i = key_index(s, k);
    let s2 = s.remove(i);
    assert(forall|j: int| 0 <= j < i ==> s2[j] == s[j]);
    assert(forall|j: int| i <= j < s2.len() ==> s2[j] == s[j + 1]);
    assert(keys_distinct(s2)) by {
        assert forall|p: int, q: int| 0 <= p < q < s2.len() implies s2[p].0 != s2[q].0 by {
            let p0: int = if p < i { p } else { p + 1 };
            let q0: int = if q < i { q } else { q + 1 };
            assert(s2[p] == s[p0] && s2[q] == s[q0]);
        }
    }
    if k2 == k {
        assert(!has_key(s2, k)) by {
            if has_key(s2, k) {
                let j = choose|j: int| 0 <= j < s2.len() && s2[j].0 == k;
                let j0: int = if j < i { j } else { j + 1 };
                assert(s[j0].0 == k && j0 != i);
                assert(s[i].0 == k);
            }
        }
    } else {
        if has_key(s, k2) {
            lemma_key_index_props(s, k2);
            let i2 = key_index(s, k2);
            assert(i2 != i);
            let i2new: int = if i2 < i { i2 } else { i2 - 1 };
            assert(s2[i2new] == s[i2]);
            assert forall|j: int| 0 <= j < i2new implies s2[j].0 != k2 by {
                let j0: int = if j < i { j } else { j + 1 };
                assert(s2[j] == s[j0] && j0 < i2);
            }
            lemma_key_index_first(s2, k2, i2new);
        } else {
            assert(!has_key(s2, k2)) by {
                if has_key(s2, k2) {
                    let j = choose|j: int| 0 <= j < s2.len() && s2[j].0 == k2;
                    let j0: int = if j < i { j } else { j + 1 };
                    assert(s[j0].0 == k2);
                }
            }
        }
    }
}

} // verus!
