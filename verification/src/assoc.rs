//! Association sequences: the common mathematical model of both cache indexes.
//!
//! A cache's contents are modelled as a `Seq` of key-value pairs whose keys
//! are pairwise distinct. The sequence order carries each engine's extra
//! structure (recency order for the LRU engine); the functions here treat it
//! only as a finite map written out as a sequence.

use vstd::prelude::*;

verus! {

/// No key occurs twice.
pub open spec fn distinct_keys<K, V>(s: Seq<(K, V)>) -> bool {
    forall|i: int, j: int| 0 <= i < j < s.len() ==> s[i].0 != s[j].0
}

/// Some pair of `s` has key `k`.
pub open spec fn contains_key<K, V>(s: Seq<(K, V)>, k: K) -> bool {
    exists|i: int| 0 <= i < s.len() && #[trigger] s[i].0 == k
}

/// An index at which `k` occurs; with `distinct_keys` it is the only one.
pub open spec fn index_of<K, V>(s: Seq<(K, V)>, k: K) -> int {
    choose|i: int| 0 <= i < s.len() && #[trigger] s[i].0 == k
}

/// The value bound to `k` (meaningful only when `contains_key(s, k)`).
pub open spec fn value_of<K, V>(s: Seq<(K, V)>, k: K) -> V {
    s[index_of(s, k)].1
}

/// `s` without the pair for `k`; `s` itself when `k` is absent.
pub open spec fn remove_key<K, V>(s: Seq<(K, V)>, k: K) -> Seq<(K, V)> {
    if contains_key(s, k) {
        s.remove(index_of(s, k))
    } else {
        s
    }
}

/// `index_of` picks a real occurrence of `k` whenever one exists.
pub proof fn lemma_index_of<K, V>(s: Seq<(K, V)>, k: K)
    requires
        contains_key(s, k),
    ensures
        0 <= index_of(s, k) < s.len(),
        s[index_of(s, k)].0 == k,
{
}

/// With distinct keys, any occurrence of `k` is at `index_of(s, k)`.
pub proof fn lemma_index_of_unique<K, V>(s: Seq<(K, V)>, k: K, i: int)
    requires
        distinct_keys(s),
        0 <= i < s.len(),
        s[i].0 == k,
    ensures
        index_of(s, k) == i,
{
    assert(contains_key(s, k));
    lemma_index_of(s, k);
}

/// Removing one index keeps the keys distinct and drops exactly that pair:
/// every other key keeps its value.
pub proof fn lemma_remove_at<K, V>(s: Seq<(K, V)>, i: int)
    requires
        distinct_keys(s),
        0 <= i < s.len(),
    ensures
        distinct_keys(s.remove(i)),
        !contains_key(s.remove(i), s[i].0),
        forall|k: K| k != s[i].0 ==> #[trigger] contains_key(s.remove(i), k) == contains_key(s, k),
        forall|k: K|
            k != s[i].0 && contains_key(s, k) ==> #[trigger] value_of(s.remove(i), k) == value_of(
                s,
                k,
            ),
{
    let r = s.remove(i);
    assert(distinct_keys(r));
    assert forall|k: K| k != s[i].0 && contains_key(s, k) implies #[trigger] contains_key(
        r,
        k,
    ) by {
        let j = index_of(s, k);
        lemma_index_of(s, k);
        let j2: int = if j < i {
            j
        } else {
            j - 1
        };
        assert(r[j2] == s[j]);
    }
    assert forall|k: K| k != s[i].0 && contains_key(s, k) implies #[trigger] value_of(r, k)
        == value_of(s, k) by {
        let j = index_of(s, k);
        lemma_index_of(s, k);
        let j2: int = if j < i {
            j
        } else {
            j - 1
        };
        assert(r[j2] == s[j]);
        assert(contains_key(r, k));
        lemma_index_of_unique(s, k, j);
        lemma_index_of_unique(r, k, j2);
    }
    assert forall|k: K| contains_key(r, k) && k != s[i].0 implies contains_key(s, k) by {
        let j = index_of(r, k);
        lemma_index_of(r, k);
        if j < i {
            assert(s[j].0 == k);
        } else {
            assert(s[j + 1].0 == k);
        }
    }
    if contains_key(r, s[i].0) {
        let j = index_of(r, s[i].0);
        lemma_index_of(r, s[i].0);
        if j < i {
            assert(s[j].0 == s[i].0);
        } else {
            assert(s[j + 1].0 == s[i].0);
        }
        assert(false);
    }
}

/// `remove_key` in terms of `lemma_remove_at`: keys stay distinct, `k` is
/// gone, and every other binding is untouched.
pub proof fn lemma_remove_key<K, V>(s: Seq<(K, V)>, k: K)
    requires
        distinct_keys(s),
    ensures
        distinct_keys(remove_key(s, k)),
        !contains_key(remove_key(s, k), k),
        remove_key(s, k).len() == if contains_key(s, k) {
            s.len() - 1
        } else {
            s.len() as int
        },
        forall|k2: K| k2 != k ==> #[trigger] contains_key(remove_key(s, k), k2) == contains_key(
            s,
            k2,
        ),
        forall|k2: K|
            k2 != k && contains_key(s, k2) ==> #[trigger] value_of(remove_key(s, k), k2)
                == value_of(s, k2),
{
    if contains_key(s, k) {
        lemma_index_of(s, k);
        lemma_remove_at(s, index_of(s, k));
    }
}

/// Removing a key and removing it again are the same sequence: the second
/// `remove` of one key finds nothing. This is the idempotence law behind
/// `remove`: called twice with the same key, it can yield a value at most
/// once, and the second call yields none and changes nothing.
pub proof fn lemma_remove_key_idempotent<K, V>(s: Seq<(K, V)>, k: K)
    requires
        distinct_keys(s),
    ensures
        !contains_key(remove_key(s, k), k),
        remove_key(remove_key(s, k), k) == remove_key(s, k),
{
    lemma_remove_key(s, k);
}

/// Placing a fresh key at the front keeps the keys distinct, binds `k` to
/// `v` at index 0, and leaves every other binding as it was.
pub proof fn lemma_insert_front<K, V>(s: Seq<(K, V)>, k: K, v: V)
    requires
        distinct_keys(s),
        !contains_key(s, k),
    ensures
        distinct_keys(s.insert(0, (k, v))),
        contains_key(s.insert(0, (k, v)), k),
        index_of(s.insert(0, (k, v)), k) == 0,
        value_of(s.insert(0, (k, v)), k) == v,
        forall|k2: K| k2 != k ==> #[trigger] contains_key(s.insert(0, (k, v)), k2) == contains_key(
            s,
            k2,
        ),
        forall|k2: K|
            k2 != k && contains_key(s, k2) ==> #[trigger] value_of(s.insert(0, (k, v)), k2)
                == value_of(s, k2),
{
    let t = s.insert(0, (k, v));
    assert(t[0] == (k, v));
    assert forall|i: int| 0 < i < t.len() implies t[i] == s[i - 1] by {}
    assert forall|i: int, j: int| 0 <= i < j < t.len() implies t[i].0 != t[j].0 by {
        if i == 0 {
            assert(t[j] == s[j - 1]);
            if t[j].0 == k {
                assert(contains_key(s, k));
            }
        }
    }
    assert(distinct_keys(t));
    lemma_index_of_unique(t, k, 0);
    assert forall|k2: K| k2 != k && contains_key(s, k2) implies #[trigger] contains_key(
        t,
        k2,
    ) by {
        let j = index_of(s, k2);
        lemma_index_of(s, k2);
        assert(t[j + 1] == s[j]);
    }
    assert forall|k2: K| k2 != k && contains_key(s, k2) implies #[trigger] value_of(t, k2)
        == value_of(s, k2) by {
        let j = index_of(s, k2);
        lemma_index_of(s, k2);
        assert(t[j + 1] == s[j]);
        assert(contains_key(t, k2));
        lemma_index_of_unique(s, k2, j);
        lemma_index_of_unique(t, k2, j + 1);
    }
    assert forall|k2: K| k2 != k && contains_key(t, k2) implies contains_key(s, k2) by {
        let j = index_of(t, k2);
        lemma_index_of(t, k2);
        assert(j != 0);
        assert(s[j - 1].0 == k2);
    }
}

/// Appending a fresh key keeps the keys distinct, binds `k` to `v`, and
/// leaves every other binding as it was.
pub proof fn lemma_push<K, V>(s: Seq<(K, V)>, k: K, v: V)
    requires
        distinct_keys(s),
        !contains_key(s, k),
    ensures
        distinct_keys(s.push((k, v))),
        contains_key(s.push((k, v)), k),
        value_of(s.push((k, v)), k) == v,
        forall|k2: K| k2 != k ==> #[trigger] contains_key(s.push((k, v)), k2) == contains_key(
            s,
            k2,
        ),
        forall|k2: K|
            k2 != k && contains_key(s, k2) ==> #[trigger] value_of(s.push((k, v)), k2) == value_of(
                s,
                k2,
            ),
{
    let t = s.push((k, v));
    let n = s.len() as int;
    assert(t[n] == (k, v));
    assert forall|i: int, j: int| 0 <= i < j < t.len() implies t[i].0 != t[j].0 by {
        if j == n {
            assert(t[i] == s[i]);
            if t[i].0 == k {
                assert(contains_key(s, k));
            }
        }
    }
    assert(distinct_keys(t));
    lemma_index_of_unique(t, k, n);
    assert forall|k2: K| k2 != k && contains_key(s, k2) implies #[trigger] contains_key(
        t,
        k2,
    ) by {
        let j = index_of(s, k2);
        lemma_index_of(s, k2);
        assert(t[j] == s[j]);
    }
    assert forall|k2: K| k2 != k && contains_key(s, k2) implies #[trigger] value_of(t, k2)
        == value_of(s, k2) by {
        let j = index_of(s, k2);
        lemma_index_of(s, k2);
        assert(t[j] == s[j]);
        assert(contains_key(t, k2));
        lemma_index_of_unique(s, k2, j);
        lemma_index_of_unique(t, k2, j);
    }
    assert forall|k2: K| k2 != k && contains_key(t, k2) implies contains_key(s, k2) by {
        let j = index_of(t, k2);
        lemma_index_of(t, k2);
        assert(j != n);
        assert(s[j].0 == k2);
    }
}

/// Dropping the last pair keeps the keys distinct, removes exactly the last
/// key, and leaves every other binding as it was.
pub proof fn lemma_drop_last<K, V>(s: Seq<(K, V)>)
    requires
        distinct_keys(s),
        s.len() > 0,
    ensures
        distinct_keys(s.drop_last()),
        !contains_key(s.drop_last(), s.last().0),
        forall|k: K|
            k != s.last().0 ==> #[trigger] contains_key(s.drop_last(), k) == contains_key(s, k),
        forall|k: K|
            k != s.last().0 && contains_key(s, k) ==> #[trigger] value_of(s.drop_last(), k)
                == value_of(s, k),
{
    assert(s.drop_last() =~= s.remove(s.len() - 1));
    lemma_remove_at(s, s.len() - 1);
}

} // verus!
