//! Sequences of key-value pairs read as maps: the representation that the index keeps sorted.

use vstd::prelude::*;

verus! {

/// Whether some pair of `s` has the key `k`.
pub open spec fn has_key<K, V>(s: Seq<(K, V)>, k: K) -> bool {
    exists|i: int| 0 <= i < s.len() && #[trigger] s[i].0 == k
}

/// No two pairs of `s` have the same key.
pub open spec fn keys_unique<K, V>(s: Seq<(K, V)>) -> bool {
    forall|i: int, j: int| 0 <= i < s.len() && 0 <= j < s.len() && i != j ==> #[trigger] s[i].0 != #[trigger] s[j].0
}

/// The map that the pairs of `s` make: each key to the value paired with it.
pub open spec fn assoc_map<K, V>(s: Seq<(K, V)>) -> Map<K, V> {
    Map::new(
        |k: K| has_key(s, k),
        |k: K| s[choose|i: int| 0 <= i < s.len() && #[trigger] s[i].0 == k].1,
    )
}

/// With unique keys, the map holds each pair of the sequence.
pub proof fn lemma_assoc_at<K, V>(s: Seq<(K, V)>, i: int)
    requires
        keys_unique(s),
        0 <= i < s.len(),
    ensures
        assoc_map(s).contains_key(s[i].0),
        assoc_map(s)[s[i].0] == s[i].1,
{
    assert(has_key(s, s[i].0));
    let j = choose|j: int| 0 <= j < s.len() && #[trigger] s[j].0 == s[i].0;
    assert(j == i);
}

/// Adding a pair with a new key, anywhere, adds it to the map.
pub proof fn lemma_assoc_insert<K, V>(s: Seq<(K, V)>, pos: int, k: K, v: V)
    requires
        keys_unique(s),
        !has_key(s, k),
        0 <= pos <= s.len(),
    ensures
        keys_unique(s.insert(pos, (k, v))),
        assoc_map(s.insert(pos, (k, v))) == assoc_map(s).insert(k, v),
{
    let t = s.insert(pos, (k, v));
    assert forall|i: int, j: int| 0 <= i < t.len() && 0 <= j < t.len() && i != j implies #[trigger] t[i].0
        != #[trigger] t[j].0 by {
        if i == pos {
            if j < pos {
                assert(t[j] == s[j]);
            } else {
                assert(t[j] == s[j - 1]);
            }
        } else if j == pos {
            if i < pos {
                assert(t[i] == s[i]);
            } else {
                assert(t[i] == s[i - 1]);
            }
        } else {
            let si = if i < pos { i } else { i - 1 };
            let sj = if j < pos { j } else { j - 1 };
            assert(t[i] == s[si]);
            assert(t[j] == s[sj]);
        }
    }
    let m = assoc_map(s).insert(k, v);
    assert forall|x: K| #[trigger] assoc_map(t).contains_key(x) <==> m.contains_key(x) by {
        if has_key(t, x) {
            let i = choose|i: int| 0 <= i < t.len() && #[trigger] t[i].0 == x;
            if i < pos {
                assert(s[i].0 == x);
            } else if i > pos {
                assert(s[i - 1].0 == x);
            }
        }
        if has_key(s, x) {
            let i = choose|i: int| 0 <= i < s.len() && #[trigger] s[i].0 == x;
            if i < pos {
                assert(t[i].0 == x);
            } else {
                assert(t[i + 1].0 == x);
            }
        }
        if x == k {
            assert(t[pos].0 == x);
        }
    }
    assert forall|x: K| #[trigger] assoc_map(t).contains_key(x) implies assoc_map(t)[x] == m[x] by {
        if x == k {
            assert(t[pos] == (k, v));
            lemma_assoc_at(t, pos);
        } else {
            let i = choose|i: int| 0 <= i < s.len() && #[trigger] s[i].0 == x;
            lemma_assoc_at(s, i);
            if i < pos {
                assert(t[i] == s[i]);
                lemma_assoc_at(t, i);
            } else {
                assert(t[i + 1] == s[i]);
                lemma_assoc_at(t, i + 1);
            }
        }
    }
    assert(assoc_map(t) =~= m);
}

/// Replacing the value of a pair replaces it in the map.
pub proof fn lemma_assoc_replace<K, V>(s: Seq<(K, V)>, i: int, v: V)
    requires
        keys_unique(s),
        0 <= i < s.len(),
    ensures
        keys_unique(s.update(i, (s[i].0, v))),
        assoc_map(s.update(i, (s[i].0, v))) == assoc_map(s).insert(s[i].0, v),
{
    let k = s[i].0;
    let t = s.update(i, (k, v));
    assert forall|a: int, b: int| 0 <= a < t.len() && 0 <= b < t.len() && a != b implies #[trigger] t[a].0
        != #[trigger] t[b].0 by {
        assert(t[a].0 == s[a].0);
        assert(t[b].0 == s[b].0);
    }
    let m = assoc_map(s).insert(k, v);
    assert forall|x: K| #[trigger] assoc_map(t).contains_key(x) <==> m.contains_key(x) by {
        if has_key(t, x) {
            let j = choose|j: int| 0 <= j < t.len() && #[trigger] t[j].0 == x;
            assert(s[j].0 == x);
        }
        if has_key(s, x) {
            let j = choose|j: int| 0 <= j < s.len() && #[trigger] s[j].0 == x;
            assert(t[j].0 == x);
        }
        if x == k {
            assert(t[i].0 == x);
        }
    }
    assert forall|x: K| #[trigger] assoc_map(t).contains_key(x) implies assoc_map(t)[x] == m[x] by {
        let j = choose|j: int| 0 <= j < t.len() && #[trigger] t[j].0 == x;
        lemma_assoc_at(t, j);
        if j != i {
            assert(t[j] == s[j]);
            lemma_assoc_at(s, j);
        }
    }
    assert(assoc_map(t) =~= m);
}

} // verus!
