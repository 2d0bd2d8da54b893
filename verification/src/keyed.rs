//! Sequences of key-value pairs with distinct keys, read as maps: the one
//! proof that the vectors of this library which stand for maps rest on.

use vstd::prelude::*;

verus! {

/// No key occurs twice.
pub open spec fn keys_distinct<K, V>(s: Seq<(K, V)>) -> bool {
    forall|i: int, j: int| 0 <= i < j < s.len() ==> (#[trigger] s[i]).0 != (#[trigger] s[j]).0
}

/// The map from each key of the pairs to its value.
pub open spec fn pairs_map<K, V>(s: Seq<(K, V)>) -> Map<K, V> {
    Map::new(
        |k: K| exists|i: int| 0 <= i < s.len() && (#[trigger] s[i]).0 == k,
        |k: K| s[choose|i: int| 0 <= i < s.len() && (#[trigger] s[i]).0 == k].1,
    )
}

/// Each pair is in the map.
pub proof fn lemma_at<K, V>(s: Seq<(K, V)>, i: int)
    requires
        keys_distinct(s),
        0 <= i < s.len(),
    ensures
        pairs_map(s).contains_key(s[i].0),
        pairs_map(s)[s[i].0] == s[i].1,
{
    let k = s[i].0;
    assert(pairs_map(s).dom().contains(k));
    let c = choose|c: int| 0 <= c < s.len() && (#[trigger] s[c]).0 == k;
    if c < i {
        assert(s[c].0 != s[i].0);
    }
    if i < c {
        assert(s[i].0 != s[c].0);
    }
}

/// A key is in the map exactly when some pair has it.
pub proof fn lemma_absent<K, V>(s: Seq<(K, V)>, k: K)
    requires
        !pairs_map(s).contains_key(k),
    ensures
        forall|i: int| 0 <= i < s.len() ==> (#[trigger] s[i]).0 != k,
{
}

/// Replacing the value of a pair replaces it in the map.
pub proof fn lemma_update<K, V>(s: Seq<(K, V)>, i: int, v: V)
    requires
        keys_distinct(s),
        0 <= i < s.len(),
    ensures
        keys_distinct(s.update(i, (s[i].0, v))),
        pairs_map(s.update(i, (s[i].0, v))) == pairs_map(s).insert(s[i].0, v),
{
    let t = s.update(i, (s[i].0, v));
    let k = s[i].0;
    assert forall|a: int, b: int| 0 <= a < b < t.len() implies (#[trigger] t[a]).0 != (#[trigger] t[b]).0 by {
        assert(t[a].0 == s[a].0);
        assert(t[b].0 == s[b].0);
    }
    lemma_at(t, i);
    assert forall|x: K| #[trigger] pairs_map(t).contains_key(x) <==> pairs_map(s).insert(k, v).contains_key(x) by {
        if pairs_map(t).contains_key(x) {
            let j = choose|j: int| 0 <= j < t.len() && (#[trigger] t[j]).0 == x;
            assert(s[j].0 == t[j].0);
        }
        if pairs_map(s).contains_key(x) {
            let j = choose|j: int| 0 <= j < s.len() && (#[trigger] s[j]).0 == x;
            assert(s[j].0 == t[j].0);
        }
    }
    assert forall|x: K| #[trigger] pairs_map(t).contains_key(x) implies pairs_map(t)[x] == pairs_map(s).insert(k, v)[x] by {
        if x != k {
            let j = choose|j: int| 0 <= j < t.len() && (#[trigger] t[j]).0 == x;
            assert(j != i);
            lemma_at(t, j);
            lemma_at(s, j);
        }
    }
    assert(pairs_map(t) =~= pairs_map(s).insert(k, v));
}

/// Adding a pair with a new key adds it to the map.
pub proof fn lemma_push<K, V>(s: Seq<(K, V)>, k: K, v: V)
    requires
        keys_distinct(s),
        !pairs_map(s).contains_key(k),
    ensures
        keys_distinct(s.push((k, v))),
        pairs_map(s.push((k, v))) == pairs_map(s).insert(k, v),
{
    let t = s.push((k, v));
    let n = s.len() as int;
    lemma_absent(s, k);
    assert forall|a: int, b: int| 0 <= a < b < t.len() implies (#[trigger] t[a]).0 != (#[trigger] t[b]).0 by {
        assert(t[a] == s[a]);
        if b < n {
            assert(t[b] == s[b]);
        }
    }
    lemma_at(t, n);
    assert forall|x: K| #[trigger] pairs_map(t).contains_key(x) <==> pairs_map(s).insert(k, v).contains_key(x) by {
        if pairs_map(t).contains_key(x) && x != k {
            let j = choose|j: int| 0 <= j < t.len() && (#[trigger] t[j]).0 == x;
            assert(j < n);
            assert(s[j] == t[j]);
        }
        if pairs_map(s).contains_key(x) {
            let j = choose|j: int| 0 <= j < s.len() && (#[trigger] s[j]).0 == x;
            assert(s[j] == t[j]);
        }
    }
    assert forall|x: K| #[trigger] pairs_map(t).contains_key(x) implies pairs_map(t)[x] == pairs_map(s).insert(k, v)[x] by {
        if x != k {
            let j = choose|j: int| 0 <= j < t.len() && (#[trigger] t[j]).0 == x;
            assert(j < n);
            assert(s[j] == t[j]);
            lemma_at(t, j);
            lemma_at(s, j);
        }
    }
    assert(pairs_map(t) =~= pairs_map(s).insert(k, v));
}

/// Removing a pair removes its key from the map.
pub proof fn lemma_remove<K, V>(s: Seq<(K, V)>, i: int)
    requires
        keys_distinct(s),
        0 <= i < s.len(),
    ensures
        keys_distinct(s.remove(i)),
        pairs_map(s.remove(i)) == pairs_map(s).remove(s[i].0),
{
    let t = s.remove(i);
    let k = s[i].0;
    assert forall|a: int, b: int| 0 <= a < b < t.len() implies (#[trigger] t[a]).0 != (#[trigger] t[b]).0 by {
        let a0 = if a < i { a } else { a + 1 };
        let b0 = if b < i { b } else { b + 1 };
        assert(t[a] == s[a0]);
        assert(t[b] == s[b0]);
        assert(s[a0].0 != s[b0].0);
    }
    assert forall|x: K| #[trigger] pairs_map(t).contains_key(x) <==> pairs_map(s).remove(k).contains_key(x) by {
        if pairs_map(t).contains_key(x) {
            let j = choose|j: int| 0 <= j < t.len() && (#[trigger] t[j]).0 == x;
            let j0 = if j < i { j } else { j + 1 };
            assert(t[j] == s[j0]);
            assert(s[j0].0 != s[i].0);
        }
        if pairs_map(s).remove(k).contains_key(x) {
            let j0 = choose|j: int| 0 <= j < s.len() && (#[trigger] s[j]).0 == x;
            assert(j0 != i);
            let j = if j0 < i { j0 } else { j0 - 1 };
            assert(t[j] == s[j0]);
        }
    }
    assert forall|x: K| #[trigger] pairs_map(t).contains_key(x) implies pairs_map(t)[x] == pairs_map(s)[x] by {
        let j = choose|j: int| 0 <= j < t.len() && (#[trigger] t[j]).0 == x;
        let j0 = if j < i { j } else { j + 1 };
        assert(t[j] == s[j0]);
        lemma_at(t, j);
        lemma_at(s, j0);
    }
    assert(pairs_map(t) =~= pairs_map(s).remove(k));
}

/// The map has as many keys as there are pairs.
pub proof fn lemma_len<K, V>(s: Seq<(K, V)>)
    requires
        keys_distinct(s),
    ensures
        pairs_map(s).dom().finite(),
        pairs_map(s).dom().len() == s.len(),
{
    let ks = s.map_values(|p: (K, V)| p.0);
    assert forall|i: int, j: int| 0 <= i < ks.len() && 0 <= j < ks.len() && i != j implies ks[i] != ks[j] by {
        if i < j {
            assert(s[i].0 != s[j].0);
        } else {
            assert(s[j].0 != s[i].0);
        }
    }
    ks.unique_seq_to_set();
    assert forall|k: K| pairs_map(s).dom().contains(k) <==> ks.to_set().contains(k) by {
        if pairs_map(s).dom().contains(k) {
            let i = choose|i: int| 0 <= i < s.len() && (#[trigger] s[i]).0 == k;
            assert(ks[i] == k);
        }
        if ks.to_set().contains(k) {
            let i = choose|i: int| 0 <= i < ks.len() && ks[i] == k;
            assert(s[i].0 == k);
        }
    }
    assert(pairs_map(s).dom() =~= ks.to_set());
}

} // verus!
