//! Sequences of key/value pairs read as maps: the specification vocabulary of
//! the library's ordered maps.

use vstd::prelude::*;

verus! {

/// Some entry of `s` has key `k`.
pub open spec fn has_key<K, V>(s: Seq<(K, V)>, k: K) -> bool {
    exists|i: int| 0 <= i < s.len() && #[trigger] s[i].0 == k
}

/// No two entries of `s` have the same key.
pub open spec fn keys_distinct<K, V>(s: Seq<(K, V)>) -> bool {
    forall|i: int, j: int| 0 <= i < s.len() && 0 <= j < s.len() && i != j ==> s[i].0 != s[j].0
}

/// The position of the first entry with key `k` (`s.len()` if none).
pub open spec fn key_index<K, V>(s: Seq<(K, V)>, k: K) -> int
    decreases s.len(),
{
    if s.len() == 0 {
        0
    } else if s[0].0 == k {
        0
    } else {
        1 + key_index(s.drop_first(), k)
    }
}

/// The value stored under `k`, if any.
pub open spec fn lookup<K, V>(s: Seq<(K, V)>, k: K) -> Option<V> {
    if has_key(s, k) {
        Some(s[key_index(s, k)].1)
    } else {
        None
    }
}

/// `s` with the value under `key` replaced by `value`, or with the pair appended
/// when `key` is not a key of `s`.
pub open spec fn keyed_insert<K, V>(s: Seq<(K, V)>, key: K, value: V) -> Seq<(K, V)> {
    if has_key(s, key) {
        s.update(key_index(s, key), (key, value))
    } else {
        s.push((key, value))
    }
}

/// `s` without the entry with key `k` (unchanged if none).
pub open spec fn keyed_remove<K, V>(s: Seq<(K, V)>, k: K) -> Seq<(K, V)> {
    if has_key(s, k) {
        s.remove(key_index(s, k))
    } else {
        s
    }
}

/// The keys of `s`, in order.
pub open spec fn keys_of<K, V>(s: Seq<(K, V)>) -> Seq<K> {
    s.map_values(|e: (K, V)| e.0)
}

pub proof fn lemma_key_index<K, V>(s: Seq<(K, V)>, k: K)
    ensures
        0 <= key_index(s, k) <= s.len(),
        key_index(s, k) < s.len() <==> has_key(s, k),
        key_index(s, k) < s.len() ==> s[key_index(s, k)].0 == k,
        forall|j: int| 0 <= j < key_index(s, k) ==> s[j].0 != k,
    decreases s.len(),
{
    if s.len() > 0 && s[0].0 != k {
        lemma_key_index(s.drop_first(), k);
        let t = s.drop_first();
        if has_key(s, k) {
            let i = choose|i: int| 0 <= i < s.len() && #[trigger] s[i].0 == k;
            assert(t[i - 1].0 == k);
        }
        if has_key(t, k) {
            let i = choose|i: int| 0 <= i < t.len() && #[trigger] t[i].0 == k;
            assert(s[i + 1].0 == k);
        }
        assert forall|j: int| 0 <= j < key_index(s, k) implies s[j].0 != k by {
            if j > 0 {
                assert(s[j] == t[j - 1]);
            }
        }
    } else if s.len() > 0 {
        assert(s[0].0 == k);
    }
}

/// In a map with distinct keys, the entry at `i` is the one found under its key.
pub proof fn lemma_distinct_index<K, V>(s: Seq<(K, V)>, i: int)
    requires
        keys_distinct(s),
        0 <= i < s.len(),
    ensures
        key_index(s, s[i].0) == i,
        has_key(s, s[i].0),
        lookup(s, s[i].0) == Some(s[i].1),
{
    lemma_key_index(s, s[i].0);
}

pub proof fn lemma_insert_distinct<K, V>(s: Seq<(K, V)>, key: K, value: V)
    requires
        keys_distinct(s),
    ensures
        keys_distinct(keyed_insert(s, key, value)),
        has_key(keyed_insert(s, key, value), key),
        lookup(keyed_insert(s, key, value), key) == Some(value),
        forall|k: K| k != key ==> lookup(keyed_insert(s, key, value), k) == lookup(s, k),
        forall|k: K| k != key ==> has_key(keyed_insert(s, key, value), k) == has_key(s, k),
{
    lemma_key_index(s, key);
    let t = keyed_insert(s, key, value);
    if has_key(s, key) {
        let idx = key_index(s, key);
        assert(t[idx].0 == key);
        lemma_distinct_index(t, idx);
        assert forall|k: K| k != key implies lookup(t, k) == lookup(s, k) && has_key(t, k)
            == has_key(s, k) by {
            lemma_key_index(s, k);
            lemma_key_index(t, k);
            if has_key(s, k) {
                let j = key_index(s, k);
                assert(j != idx);
                assert(t[j] == s[j]);
                lemma_distinct_index(t, j);
            }
            if has_key(t, k) {
                let j = key_index(t, k);
                assert(t[j] == s[j]);
            }
        }
    } else {
        let n = s.len() as int;
        assert(t[n].0 == key);
        assert(keys_distinct(t)) by {
            assert forall|i: int, j: int|
                0 <= i < t.len() && 0 <= j < t.len() && i != j implies t[i].0 != t[j].0 by {
                if i == n {
                    assert(t[j] == s[j]);
                } else if j == n {
                    assert(t[i] == s[i]);
                }
            }
        }
        lemma_distinct_index(t, n);
        assert forall|k: K| k != key implies lookup(t, k) == lookup(s, k) && has_key(t, k)
            == has_key(s, k) by {
            lemma_key_index(s, k);
            lemma_key_index(t, k);
            if has_key(s, k) {
                let j = key_index(s, k);
                assert(t[j] == s[j]);
                lemma_distinct_index(t, j);
            }
            if has_key(t, k) {
                let j = key_index(t, k);
                assert(j != n);
                assert(t[j] == s[j]);
            }
        }
    }
}

pub proof fn lemma_remove_distinct<K, V>(s: Seq<(K, V)>, k: K)
    requires
        keys_distinct(s),
    ensures
        keys_distinct(keyed_remove(s, k)),
        !has_key(keyed_remove(s, k), k),
        forall|q: K| q != k ==> lookup(keyed_remove(s, k), q) == lookup(s, q),
        forall|q: K| q != k ==> has_key(keyed_remove(s, k), q) == has_key(s, q),
{
    lemma_key_index(s, k);
    let t = keyed_remove(s, k);
    if has_key(s, k) {
        let idx = key_index(s, k);
        assert(forall|j: int| 0 <= j < t.len() ==> #[trigger] t[j] == if j < idx { s[j] } else { s[j + 1] });
        assert(keys_distinct(t));
        if has_key(t, k) {
            let j = choose|j: int| 0 <= j < t.len() && #[trigger] t[j].0 == k;
            if j < idx {
            } else {
                assert(s[j + 1].0 == k);
            }
        }
        assert forall|q: K| q != k implies lookup(t, q) == lookup(s, q) && has_key(t, q)
            == has_key(s, q) by {
            lemma_key_index(s, q);
            lemma_key_index(t, q);
            if has_key(s, q) {
                let j = key_index(s, q);
                assert(j != idx);
                let tj = if j < idx { j } else { j - 1 };
                assert(t[tj] == s[j]);
                lemma_distinct_index(t, tj);
            }
            if has_key(t, q) {
                let j = key_index(t, q);
                let sj = if j < idx { j } else { j + 1 };
                assert(t[j] == s[sj]);
            }
        }
    }
}

/// Appending a pair adds its key and leaves what was found before as it was.
pub proof fn lemma_push_lookup<K, V>(s: Seq<(K, V)>, key: K, value: V, q: K)
    ensures
        has_key(s.push((key, value)), q) == (has_key(s, q) || q == key),
        lookup(s.push((key, value)), q) == if has_key(s, q) {
            lookup(s, q)
        } else if q == key {
            Some(value)
        } else {
            None::<V>
        },
{
    let t = s.push((key, value));
    lemma_key_index(s, q);
    lemma_key_index(t, q);
    if has_key(s, q) {
        let i = key_index(s, q);
        assert(t[i] == s[i]);
        assert(has_key(t, q));
        assert(key_index(t, q) == i) by {
            if key_index(t, q) < i {
                assert(t[key_index(t, q)] == s[key_index(t, q)]);
            }
        }
    } else if q == key {
        assert(t[s.len() as int].0 == q);
        assert(key_index(t, q) == s.len()) by {
            if key_index(t, q) < s.len() {
                assert(t[key_index(t, q)] == s[key_index(t, q)]);
            }
        }
    } else {
        if has_key(t, q) {
            let j = choose|j: int| 0 <= j < t.len() && #[trigger] t[j].0 == q;
            assert(s[j].0 == q);
        }
    }
}

} // verus!
