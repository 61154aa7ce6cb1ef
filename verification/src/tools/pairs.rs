//! Sequences of key and value with no key twice, read as maps.
use vstd::prelude::*;

verus! {

/// No key occurs twice in `s`.
pub open spec fn distinct_keys<K, V>(s: Seq<(K, V)>) -> bool {
    forall|i: int, j: int| 0 <= i < j < s.len() ==> s[i].0 != s[j].0
}

/// Some entry of `s` has key `k`.
pub open spec fn has_key<K, V>(s: Seq<(K, V)>, k: K) -> bool {
    exists|i: int| 0 <= i < s.len() && #[trigger] s[i].0 == k
}

/// An index at which `s` has key `k`, where there is one.
pub open spec fn index_of<K, V>(s: Seq<(K, V)>, k: K) -> int {
    choose|i: int| 0 <= i < s.len() && #[trigger] s[i].0 == k
}

/// The map that the entries `s` spell.
pub open spec fn pairs_map<K, V>(s: Seq<(K, V)>) -> Map<K, V> {
    Map::new(|k: K| has_key(s, k), |k: K| s[index_of(s, k)].1)
}

/// No entries spell the empty map.
pub proof fn lemma_no_pairs<K, V>()
    ensures
        pairs_map(Seq::<(K, V)>::empty()) == Map::<K, V>::empty(),
        distinct_keys(Seq::<(K, V)>::empty()),
{
    assert(pairs_map(Seq::<(K, V)>::empty()) =~= Map::<K, V>::empty());
}

/// Each entry is found under its key.
pub proof fn lemma_pair_in_map<K, V>(s: Seq<(K, V)>, i: int)
    requires
        distinct_keys(s),
        0 <= i < s.len(),
    ensures
        has_key(s, s[i].0),
        pairs_map(s).contains_key(s[i].0),
        pairs_map(s)[s[i].0] == s[i].1,
        index_of(s, s[i].0) == i,
{
    assert(s[i].0 == s[i].0);
    let j = index_of(s, s[i].0);
    assert(0 <= j < s.len() && s[j].0 == s[i].0);
}

/// A key that no entry has is not in the map.
pub proof fn lemma_key_not_in_map<K, V>(s: Seq<(K, V)>, k: K)
    requires
        forall|i: int| 0 <= i < s.len() ==> s[i].0 != k,
    ensures
        !has_key(s, k),
        !pairs_map(s).contains_key(k),
{
}

/// Putting in an entry with a new key is `insert` on the map.
pub proof fn lemma_insert_pair<K, V>(s: Seq<(K, V)>, p: int, k: K, v: V)
    requires
        distinct_keys(s),
        0 <= p <= s.len(),
        forall|i: int| 0 <= i < s.len() ==> s[i].0 != k,
    ensures
        distinct_keys(s.insert(p, (k, v))),
        pairs_map(s.insert(p, (k, v))) == pairs_map(s).insert(k, v),
        !pairs_map(s).contains_key(k),
{
    let t = s.insert(p, (k, v));
    assert(distinct_keys(t)) by {
        assert forall|i: int, j: int| 0 <= i < j < t.len() implies t[i].0 != t[j].0 by {
            let a = if i < p { i } else { i - 1 };
            let b = if j < p { j } else { j - 1 };
            if i != p && j != p {
                assert(t[i] == s[a] && t[j] == s[b]);
            } else if i == p {
                assert(t[j] == s[b]);
            } else {
                assert(t[i] == s[a]);
            }
        }
    }
    let m = pairs_map(s).insert(k, v);
    assert forall|x: K| #[trigger] pairs_map(t).contains_key(x) implies m.contains_key(x) && m[x]
        == pairs_map(t)[x] by {
        let i = index_of(t, x);
        lemma_pair_in_map(t, i);
        if i != p {
            let a = if i < p { i } else { i - 1 };
            assert(t[i] == s[a]);
            lemma_pair_in_map(s, a);
        }
    }
    assert forall|x: K| #[trigger] m.contains_key(x) implies pairs_map(t).contains_key(x) by {
        if x == k {
            assert(t[p].0 == k);
        } else {
            let a = index_of(s, x);
            let i = if a < p { a } else { a + 1 };
            assert(t[i] == s[a]);
        }
    }
    assert(pairs_map(t) =~= m);
}

/// Replacing the value of an entry is `insert` on the map.
pub proof fn lemma_update_pair<K, V>(s: Seq<(K, V)>, p: int, v: V)
    requires
        distinct_keys(s),
        0 <= p < s.len(),
    ensures
        distinct_keys(s.update(p, (s[p].0, v))),
        pairs_map(s.update(p, (s[p].0, v))) == pairs_map(s).insert(s[p].0, v),
{
    let k = s[p].0;
    let t = s.update(p, (k, v));
    assert(distinct_keys(t)) by {
        assert forall|i: int, j: int| 0 <= i < j < t.len() implies t[i].0 != t[j].0 by {
            assert(t[i].0 == s[i].0 && t[j].0 == s[j].0);
        }
    }
    let m = pairs_map(s).insert(k, v);
    assert forall|x: K| #[trigger] pairs_map(t).contains_key(x) implies m.contains_key(x) && m[x]
        == pairs_map(t)[x] by {
        let i = index_of(t, x);
        lemma_pair_in_map(t, i);
        assert(t[i].0 == s[i].0);
        lemma_pair_in_map(s, i);
    }
    assert forall|x: K| #[trigger] m.contains_key(x) implies pairs_map(t).contains_key(x) by {
        if x == k {
            assert(t[p].0 == k);
        } else {
            let a = index_of(s, x);
            assert(t[a].0 == s[a].0);
        }
    }
    assert(pairs_map(t) =~= m);
}

/// Taking an entry out is `remove` on the map.
pub proof fn lemma_remove_pair<K, V>(s: Seq<(K, V)>, p: int)
    requires
        distinct_keys(s),
        0 <= p < s.len(),
    ensures
        distinct_keys(s.remove(p)),
        pairs_map(s.remove(p)) == pairs_map(s).remove(s[p].0),
{
    let k = s[p].0;
    let t = s.remove(p);
    assert(distinct_keys(t)) by {
        assert forall|i: int, j: int| 0 <= i < j < t.len() implies t[i].0 != t[j].0 by {
            let a = if i < p { i } else { i + 1 };
            let b = if j < p { j } else { j + 1 };
            assert(t[i] == s[a] && t[j] == s[b]);
        }
    }
    let m = pairs_map(s).remove(k);
    assert forall|x: K| #[trigger] pairs_map(t).contains_key(x) implies m.contains_key(x) && m[x]
        == pairs_map(t)[x] by {
        let i = index_of(t, x);
        lemma_pair_in_map(t, i);
        let a = if i < p { i } else { i + 1 };
        assert(t[i] == s[a]);
        lemma_pair_in_map(s, a);
        lemma_pair_in_map(s, p);
    }
    assert forall|x: K| #[trigger] m.contains_key(x) implies pairs_map(t).contains_key(x) by {
        let a = index_of(s, x);
        assert(a != p);
        let i = if a < p { a } else { a - 1 };
        assert(t[i] == s[a]);
    }
    assert(pairs_map(t) =~= m);
}

} // verus!
