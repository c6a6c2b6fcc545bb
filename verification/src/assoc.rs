//! Association lists: sequences of key-value pairs read as finite mappings.
//!
//! The books of this crate are vectors of pairs. The functions here say what
//! such a vector means as a mapping, and the lemmas say how the meaning
//! changes when a pair is appended or a value is replaced.

use vstd::prelude::*;

verus! {

/// No key occurs in two places.
pub open spec fn keys_distinct<K, V>(s: Seq<(K, V)>) -> bool {
    forall|i: int, j: int| 0 <= i < j < s.len() ==> s[i].0 != s[j].0
}

/// No pair of `s` has the key `k`.
pub open spec fn absent<K, V>(s: Seq<(K, V)>, k: K) -> bool {
    forall|i: int| 0 <= i < s.len() ==> (#[trigger] s[i]).0 != k
}

/// The value that `s` holds for `k`, if it holds one.
pub open spec fn lookup<K, V>(s: Seq<(K, V)>, k: K) -> Option<V>
    decreases s.len(),
{
    if s.len() == 0 {
        None
    } else if s.last().0 == k {
        Some(s.last().1)
    } else {
        lookup(s.drop_last(), k)
    }
}

/// The pair at `i` with its value replaced by `v`.
pub open spec fn with_value<K, V>(s: Seq<(K, V)>, i: int, v: V) -> Seq<(K, V)> {
    s.update(i, (s[i].0, v))
}

/// A key that no pair has is not bound.
pub proof fn lemma_lookup_absent<K, V>(s: Seq<(K, V)>, k: K)
    requires
        absent(s, k),
    ensures
        lookup(s, k) is None,
    decreases s.len(),
{
    if s.len() > 0 {
        assert(s[s.len() - 1].0 != k);
        let t = s.drop_last();
        assert forall|i: int| 0 <= i < t.len() implies (#[trigger] t[i]).0 != k by {
            assert(t[i] == s[i]);
        }
        lemma_lookup_absent(t, k);
    }
}

/// A key that is not bound is the key of no pair.
pub proof fn lemma_lookup_none<K, V>(s: Seq<(K, V)>, k: K)
    requires
        lookup(s, k) is None,
    ensures
        absent(s, k),
    decreases s.len(),
{
    if s.len() > 0 {
        let t = s.drop_last();
        lemma_lookup_none(t, k);
        assert forall|i: int| 0 <= i < s.len() implies (#[trigger] s[i]).0 != k by {
            if i < t.len() {
                assert(t[i] == s[i]);
            }
        }
    }
}

/// Where no key occurs twice, the key at `i` is bound to the value at `i`.
pub proof fn lemma_lookup_at<K, V>(s: Seq<(K, V)>, i: int)
    requires
        keys_distinct(s),
        0 <= i < s.len(),
    ensures
        lookup(s, s[i].0) == Some(s[i].1),
    decreases s.len(),
{
    if i < s.len() - 1 {
        let t = s.drop_last();
        assert(t[i] == s[i]);
        assert(s[i].0 != s[s.len() - 1].0);
        lemma_lookup_at(t, i);
    }
}

/// An appended pair binds its key and leaves the other keys as they were.
pub proof fn lemma_lookup_push<K, V>(s: Seq<(K, V)>, e: (K, V), k: K)
    ensures
        lookup(s.push(e), k) == if k == e.0 {
            Some(e.1)
        } else {
            lookup(s, k)
        },
{
    assert(s.push(e).drop_last() =~= s);
    assert(s.push(e).last() == e);
}

/// Appending a pair whose key is new keeps the keys distinct.
pub proof fn lemma_push_distinct<K, V>(s: Seq<(K, V)>, e: (K, V))
    requires
        keys_distinct(s),
        absent(s, e.0),
    ensures
        keys_distinct(s.push(e)),
{
    let t = s.push(e);
    assert forall|i: int, j: int| 0 <= i < j < t.len() implies t[i].0 != t[j].0 by {
        if j < s.len() {
            assert(t[i] == s[i] && t[j] == s[j]);
        } else {
            assert(t[i] == s[i]);
        }
    }
}

/// Replacing a value keeps the keys distinct.
pub proof fn lemma_with_value_distinct<K, V>(s: Seq<(K, V)>, i: int, v: V)
    requires
        keys_distinct(s),
        0 <= i < s.len(),
    ensures
        keys_distinct(with_value(s, i, v)),
{
    let t = with_value(s, i, v);
    assert forall|a: int, b: int| 0 <= a < b < t.len() implies t[a].0 != t[b].0 by {
        assert(t[a].0 == s[a].0 && t[b].0 == s[b].0);
    }
}

/// Replacing the value at `i` rebinds the key at `i` and leaves the other
/// keys as they were.
pub proof fn lemma_lookup_with_value<K, V>(s: Seq<(K, V)>, i: int, v: V, k: K)
    requires
        keys_distinct(s),
        0 <= i < s.len(),
    ensures
        lookup(with_value(s, i, v), k) == if k == s[i].0 {
            Some(v)
        } else {
            lookup(s, k)
        },
    decreases s.len(),
{
    let t = with_value(s, i, v);
    lemma_with_value_distinct(s, i, v);
    if k == s[i].0 {
        lemma_lookup_at(t, i);
    } else if i == s.len() - 1 {
        assert(t.drop_last() =~= s.drop_last());
    } else {
        let s0 = s.drop_last();
        assert(s0[i] == s[i]);
        assert(t.drop_last() =~= with_value(s0, i, v));
        assert(t.last() == s.last());
        lemma_lookup_with_value(s0, i, v, k);
    }
}

/// Replacing the pair at `i` by a pair whose key is the old one, or one
/// that `s` does not hold, rebinds the new key and unbinds the old.
pub proof fn lemma_lookup_update<K, V>(s: Seq<(K, V)>, i: int, e: (K, V), k: K)
    requires
        keys_distinct(s),
        0 <= i < s.len(),
        e.0 == s[i].0 || absent(s, e.0),
    ensures
        keys_distinct(s.update(i, e)),
        lookup(s.update(i, e), k) == if k == e.0 {
            Some(e.1)
        } else if k == s[i].0 {
            None
        } else {
            lookup(s, k)
        },
{
    let t = s.update(i, e);
    assert forall|a: int, b: int| 0 <= a < b < t.len() implies t[a].0 != t[b].0 by {
        if a == i {
            assert(t[b] == s[b]);
        } else if b == i {
            assert(t[a] == s[a]);
        } else {
            assert(t[a] == s[a] && t[b] == s[b]);
        }
    }
    if k == e.0 {
        lemma_lookup_at(t, i);
    } else if k == s[i].0 {
        assert forall|j: int| 0 <= j < t.len() implies (#[trigger] t[j]).0 != k by {
            if j != i {
                assert(t[j] == s[j]);
                if j < i {
                    assert(s[j].0 != s[i].0);
                } else {
                    assert(s[i].0 != s[j].0);
                }
            }
        }
        lemma_lookup_absent(t, k);
    } else if lookup(s, k) is None {
        lemma_lookup_none(s, k);
        assert forall|j: int| 0 <= j < t.len() implies (#[trigger] t[j]).0 != k by {
            if j != i {
                assert(t[j] == s[j]);
            }
        }
        lemma_lookup_absent(t, k);
    } else {
        if absent(s, k) {
            lemma_lookup_absent(s, k);
        }
        let j = choose|j: int| 0 <= j < s.len() && (#[trigger] s[j]).0 == k;
        assert(t[j] == s[j]);
        lemma_lookup_at(s, j);
        lemma_lookup_at(t, j);
    }
}

} // verus!
