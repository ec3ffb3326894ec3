use vstd::prelude::*;

verus! {

/// The map that a sequence of key/value pairs stands for; a later pair
/// overrides an earlier one with the same key.
pub open spec fn pairs_to_map<K, V>(s: Seq<(K, V)>) -> Map<K, V>
    decreases s.len(),
{
    if s.len() == 0 {
        Map::empty()
    } else {
        pairs_to_map(s.drop_last()).insert(s.last().0, s.last().1)
    }
}

/// No two pairs of `s` share a key.
pub open spec fn keys_unique<K, V>(s: Seq<(K, V)>) -> bool {
    forall|i: int, j: int|
        0 <= i < s.len() && 0 <= j < s.len() && #[trigger] s[i].0 == #[trigger] s[j].0 ==> i == j
}

/// Some pair of `s` has key `k`.
pub open spec fn has_key<K, V>(s: Seq<(K, V)>, k: K) -> bool {
    exists|j: int| 0 <= j < s.len() && #[trigger] s[j].0 == k
}

/// A key is in the map exactly when some pair carries it; with unique keys,
/// each pair's value is the map's value for its key.
pub proof fn lemma_pairs_to_map<K, V>(s: Seq<(K, V)>)
    ensures
        forall|k: K| #[trigger] pairs_to_map(s).contains_key(k) <==> has_key(s, k),
        keys_unique(s) ==> forall|j: int|
            0 <= j < s.len() ==> #[trigger] pairs_to_map(s)[s[j].0] == s[j].1,
    decreases s.len(),
{
    if s.len() > 0 {
        let t = s.drop_last();
        let n = s.len() - 1;
        lemma_pairs_to_map(t);
        assert(pairs_to_map(s) == pairs_to_map(t).insert(s.last().0, s.last().1));
        assert forall|k: K| #[trigger] pairs_to_map(s).contains_key(k) <==> has_key(s, k) by {
            if pairs_to_map(s).contains_key(k) && k != s.last().0 {
                assert(pairs_to_map(t).contains_key(k));
                assert(has_key(t, k));
                let j = choose|j: int| 0 <= j < t.len() && #[trigger] t[j].0 == k;
                assert(s[j].0 == k);
            }
            if has_key(s, k) && k != s.last().0 {
                let j = choose|j: int| 0 <= j < s.len() && #[trigger] s[j].0 == k;
                assert(t[j].0 == k);
            }
            if k == s.last().0 {
                assert(s[n].0 == k);
            }
        }
        if keys_unique(s) {
            assert forall|i: int, j: int|
                0 <= i < t.len() && 0 <= j < t.len() && #[trigger] t[i].0 == #[trigger] t[j].0
                implies i == j by {
                assert(s[i].0 == s[j].0);
            }
            assert forall|j: int| 0 <= j < s.len() implies #[trigger] pairs_to_map(s)[s[j].0]
                == s[j].1 by {
                if j < n {
                    assert(t[j] == s[j]);
                    assert(s[j].0 != s[n].0);
                }
            }
        }
    }
}

/// Replacing the value of one pair, when keys are unique, updates the map at that key.
pub proof fn lemma_pairs_update<K, V>(s: Seq<(K, V)>, i: int, v: V)
    requires
        keys_unique(s),
        0 <= i < s.len(),
    ensures
        keys_unique(s.update(i, (s[i].0, v))),
        pairs_to_map(s.update(i, (s[i].0, v))) == pairs_to_map(s).insert(s[i].0, v),
{
    let u = s.update(i, (s[i].0, v));
    assert forall|a: int, b: int|
        0 <= a < u.len() && 0 <= b < u.len() && #[trigger] u[a].0 == #[trigger] u[b].0
        implies a == b by {
        assert(s[a].0 == s[b].0);
    }
    lemma_pairs_to_map(s);
    lemma_pairs_to_map(u);
    assert forall|k: K| has_key(u, k) <==> has_key(s, k) by {
        if has_key(u, k) {
            let j = choose|j: int| 0 <= j < u.len() && #[trigger] u[j].0 == k;
            assert(s[j].0 == k);
        }
        if has_key(s, k) {
            let j = choose|j: int| 0 <= j < s.len() && #[trigger] s[j].0 == k;
            assert(u[j].0 == k);
        }
    }
    assert forall|k: K| #[trigger] pairs_to_map(u).contains_key(k) implies pairs_to_map(u)[k]
        == pairs_to_map(s).insert(s[i].0, v)[k] by {
        let j = choose|j: int| 0 <= j < u.len() && #[trigger] u[j].0 == k;
        assert(u[j].0 == k);
        if j != i {
            assert(s[j].0 == k);
        }
    }
    assert(pairs_to_map(u) =~= pairs_to_map(s).insert(s[i].0, v));
}

/// Dropping one pair, when keys are unique, drops its key from the map.
pub proof fn lemma_pairs_remove<K, V>(s: Seq<(K, V)>, i: int)
    requires
        keys_unique(s),
        0 <= i < s.len(),
    ensures
        keys_unique(s.remove(i)),
        pairs_to_map(s.remove(i)) == pairs_to_map(s).remove(s[i].0),
{
    let u = s.remove(i);
    assert forall|a: int, b: int|
        0 <= a < u.len() && 0 <= b < u.len() && #[trigger] u[a].0 == #[trigger] u[b].0
        implies a == b by {
        let a1 = if a < i { a } else { a + 1 };
        let b1 = if b < i { b } else { b + 1 };
        assert(u[a] == s[a1]);
        assert(u[b] == s[b1]);
    }
    lemma_pairs_to_map(s);
    lemma_pairs_to_map(u);
    assert forall|k: K| has_key(u, k) <==> (has_key(s, k) && k != s[i].0) by {
        if has_key(u, k) {
            let j = choose|j: int| 0 <= j < u.len() && #[trigger] u[j].0 == k;
            let j1 = if j < i { j } else { j + 1 };
            assert(s[j1].0 == k);
        }
        if has_key(s, k) && k != s[i].0 {
            let j = choose|j: int| 0 <= j < s.len() && #[trigger] s[j].0 == k;
            if j < i {
                assert(u[j].0 == k);
            } else {
                assert(u[j - 1].0 == k);
            }
        }
    }
    assert forall|k: K| #[trigger] pairs_to_map(u).contains_key(k) implies pairs_to_map(u)[k]
        == pairs_to_map(s)[k] by {
        let j = choose|j: int| 0 <= j < u.len() && #[trigger] u[j].0 == k;
        let j1 = if j < i { j } else { j + 1 };
        assert(s[j1] == u[j]);
    }
    assert(pairs_to_map(u) =~= pairs_to_map(s).remove(s[i].0));
}

/// Appending a pair with a fresh key keeps keys unique.
pub proof fn lemma_pairs_push<K, V>(s: Seq<(K, V)>, k: K, v: V)
    requires
        keys_unique(s),
        !has_key(s, k),
    ensures
        keys_unique(s.push((k, v))),
        pairs_to_map(s.push((k, v))) == pairs_to_map(s).insert(k, v),
{
    let u = s.push((k, v));
    assert(u.drop_last() =~= s);
    assert forall|a: int, b: int|
        0 <= a < u.len() && 0 <= b < u.len() && #[trigger] u[a].0 == #[trigger] u[b].0
        implies a == b by {
        if a < s.len() && b == s.len() {
            assert(s[a].0 == k);
        }
        if b < s.len() && a == s.len() {
            assert(s[b].0 == k);
        }
        if a < s.len() && b < s.len() {
            assert(s[a].0 == s[b].0);
        }
    }
}

/// Inserting a pair with a fresh key anywhere keeps keys unique and adds it to the map.
pub proof fn lemma_pairs_insert<K, V>(s: Seq<(K, V)>, i: int, k: K, v: V)
    requires
        keys_unique(s),
        !has_key(s, k),
        0 <= i <= s.len(),
    ensures
        keys_unique(s.insert(i, (k, v))),
        pairs_to_map(s.insert(i, (k, v))) == pairs_to_map(s).insert(k, v),
{
    let u = s.insert(i, (k, v));
    assert forall|a: int, b: int|
        0 <= a < u.len() && 0 <= b < u.len() && #[trigger] u[a].0 == #[trigger] u[b].0
        implies a == b by {
        if a != i && b != i {
            let a1 = if a < i { a } else { a - 1 };
            let b1 = if b < i { b } else { b - 1 };
            assert(u[a] == s[a1]);
            assert(u[b] == s[b1]);
        } else if a == i && b != i {
            let b1 = if b < i { b } else { b - 1 };
            assert(s[b1].0 == k);
        } else if b == i && a != i {
            let a1 = if a < i { a } else { a - 1 };
            assert(s[a1].0 == k);
        }
    }
    lemma_pairs_to_map(s);
    lemma_pairs_to_map(u);
    assert forall|q: K| has_key(u, q) <==> (has_key(s, q) || q == k) by {
        if has_key(u, q) && q != k {
            let j = choose|j: int| 0 <= j < u.len() && #[trigger] u[j].0 == q;
            let j1 = if j < i { j } else { j - 1 };
            assert(s[j1].0 == q);
        }
        if has_key(s, q) {
            let j = choose|j: int| 0 <= j < s.len() && #[trigger] s[j].0 == q;
            if j < i {
                assert(u[j].0 == q);
            } else {
                assert(u[j + 1].0 == q);
            }
        }
        if q == k {
            assert(u[i].0 == q);
        }
    }
    assert forall|q: K| #[trigger] pairs_to_map(u).contains_key(q) implies pairs_to_map(u)[q]
        == pairs_to_map(s).insert(k, v)[q] by {
        let j = choose|j: int| 0 <= j < u.len() && #[trigger] u[j].0 == q;
        if j != i {
            let j1 = if j < i { j } else { j - 1 };
            assert(s[j1] == u[j]);
        }
    }
    assert(pairs_to_map(u) =~= pairs_to_map(s).insert(k, v));
}

/// The keys of `s` strictly increase under `lt`.
pub open spec fn sorted_by<K, V>(s: Seq<(K, V)>, lt: spec_fn(K, K) -> bool) -> bool {
    forall|i: int, j: int| 0 <= i < j < s.len() ==> lt(s[i].0, s[j].0)
}

/// Two sequences sorted strictly by the same order, that stand for the same
/// map, are the same sequence.
pub proof fn lemma_sorted_determined<K, V>(s1: Seq<(K, V)>, s2: Seq<(K, V)>, lt: spec_fn(K, K) -> bool)
    requires
        sorted_by(s1, lt),
        sorted_by(s2, lt),
        forall|k: K| !#[trigger] lt(k, k),
        forall|a: K, b: K, c: K| #[trigger] lt(a, b) && #[trigger] lt(b, c) ==> lt(a, c),
        pairs_to_map(s1) == pairs_to_map(s2),
    ensures
        s1 == s2,
    decreases s1.len() + s2.len(),
{
    assert forall|s: Seq<(K, V)>| sorted_by(s, lt) implies keys_unique(s) by {
        assert forall|i: int, j: int|
            0 <= i < s.len() && 0 <= j < s.len() && #[trigger] s[i].0 == #[trigger] s[j].0
            implies i == j by {
            if i < j {
                assert(lt(s[i].0, s[j].0));
            } else if j < i {
                assert(lt(s[j].0, s[i].0));
            }
        }
    }
    lemma_pairs_to_map(s1);
    lemma_pairs_to_map(s2);
    if s1.len() == 0 || s2.len() == 0 {
        if s1.len() > 0 {
            assert(has_key(s1, s1[0].0));
            assert(pairs_to_map(s2).contains_key(s1[0].0));
        }
        if s2.len() > 0 {
            assert(has_key(s2, s2[0].0));
            assert(pairs_to_map(s1).contains_key(s2[0].0));
        }
        assert(s1 =~= s2);
    } else {
        let n1 = s1.len() - 1;
        let n2 = s2.len() - 1;
        let k1 = s1[n1].0;
        let k2 = s2[n2].0;
        assert(has_key(s1, k1));
        assert(has_key(s2, k2));
        if k1 != k2 {
            assert(pairs_to_map(s2).contains_key(k1));
            assert(pairs_to_map(s1).contains_key(k2));
            let j2 = choose|j: int| 0 <= j < s2.len() && #[trigger] s2[j].0 == k1;
            let j1 = choose|j: int| 0 <= j < s1.len() && #[trigger] s1[j].0 == k2;
            assert(lt(s2[j2].0, s2[n2].0));
            assert(lt(s1[j1].0, s1[n1].0));
            assert(lt(k1, k2) && lt(k2, k1));
            assert(lt(k1, k1));
        }
        assert(pairs_to_map(s1)[s1[n1].0] == s1[n1].1);
        assert(pairs_to_map(s2)[s2[n2].0] == s2[n2].1);
        lemma_pairs_remove(s1, n1);
        lemma_pairs_remove(s2, n2);
        assert(s1.remove(n1) =~= s1.drop_last());
        assert(s2.remove(n2) =~= s2.drop_last());
        let t1 = s1.drop_last();
        let t2 = s2.drop_last();
        assert(sorted_by(t1, lt)) by {
            assert forall|i: int, j: int| 0 <= i < j < t1.len() implies lt(t1[i].0, t1[j].0) by {
                assert(t1[i] == s1[i] && t1[j] == s1[j]);
            }
        }
        assert(sorted_by(t2, lt)) by {
            assert forall|i: int, j: int| 0 <= i < j < t2.len() implies lt(t2[i].0, t2[j].0) by {
                assert(t2[i] == s2[i] && t2[j] == s2[j]);
            }
        }
        lemma_sorted_determined(t1, t2, lt);
        assert(s1 =~= t1.push(s1[n1]));
        assert(s2 =~= t2.push(s2[n2]));
    }
}

} // verus!
