//! Sequences of key/value pairs kept in strictly increasing key order, and the
//! maps they describe.
use vstd::prelude::*;

verus! {

/// Keys strictly increase along `s`.
pub open spec fn keys_increasing<V>(s: Seq<(u64, V)>) -> bool {
    forall|i: int, j: int| 0 <= i < j < s.len() ==> s[i].0 < s[j].0
}

/// Some pair of `s` has key `k`.
pub open spec fn has_key<V>(s: Seq<(u64, V)>, k: u64) -> bool {
    exists|i: int| 0 <= i < s.len() && s[i].0 == k
}

/// The map that `s` describes; a later pair wins over an earlier one.
pub open spec fn pairs_to_map<V>(s: Seq<(u64, V)>) -> Map<u64, V>
    decreases s.len(),
{
    if s.len() == 0 {
        Map::empty()
    } else {
        pairs_to_map(s.drop_last()).insert(s.last().0, s.last().1)
    }
}

/// `s` without its pairs of key `k`.
pub open spec fn remove_key<V>(s: Seq<(u64, V)>, k: u64) -> Seq<(u64, V)>
    decreases s.len(),
{
    if s.len() == 0 {
        s
    } else if s.last().0 == k {
        remove_key(s.drop_last(), k)
    } else {
        remove_key(s.drop_last(), k).push(s.last())
    }
}

/// With increasing keys, the map holds exactly the keys of `s`, each with its
/// pair's value.
pub proof fn lemma_pairs_to_map<V>(s: Seq<(u64, V)>)
    requires
        keys_increasing(s),
    ensures
        forall|k: u64| pairs_to_map(s).contains_key(k) <==> has_key(s, k),
        forall|i: int| 0 <= i < s.len() ==> pairs_to_map(s)[#[trigger] s[i].0] == s[i].1,
    decreases s.len(),
{
    if s.len() > 0 {
        let t = s.drop_last();
        lemma_pairs_to_map(t);
        assert forall|k: u64| pairs_to_map(s).contains_key(k) <==> has_key(s, k) by {
            if has_key(s, k) {
                let i = choose|i: int| 0 <= i < s.len() && s[i].0 == k;
                if i < t.len() {
                    assert(t[i] == s[i]);
                }
            }
            if has_key(t, k) {
                let i = choose|i: int| 0 <= i < t.len() && t[i].0 == k;
                assert(s[i] == t[i]);
            }
        }
        assert forall|i: int| 0 <= i < s.len() implies pairs_to_map(s)[#[trigger] s[i].0]
            == s[i].1 by {
            if i < t.len() {
                assert(t[i] == s[i]);
                assert(s[i].0 < s.last().0);
            }
        }
    }
}

/// With increasing keys, the map holds the pair at index `i`.
pub proof fn lemma_pairs_to_map_at<V>(s: Seq<(u64, V)>, i: int)
    requires
        keys_increasing(s),
        0 <= i < s.len(),
    ensures
        pairs_to_map(s).contains_key(s[i].0),
        pairs_to_map(s)[s[i].0] == s[i].1,
{
    lemma_pairs_to_map(s);
    assert(has_key(s, s[i].0));
}

/// The map of `s` without key `k` is the map of `s` with `k` removed.
pub proof fn lemma_remove_key_map<V>(s: Seq<(u64, V)>, k: u64)
    ensures
        pairs_to_map(remove_key(s, k)) == pairs_to_map(s).remove(k),
    decreases s.len(),
{
    if s.len() > 0 {
        let t = s.drop_last();
        lemma_remove_key_map(t, k);
        if s.last().0 == k {
            assert(pairs_to_map(s).remove(k) =~= pairs_to_map(t).remove(k));
        } else {
            let r = remove_key(t, k);
            assert(r.push(s.last()).drop_last() =~= r);
            assert(pairs_to_map(remove_key(s, k)) =~= pairs_to_map(s).remove(k));
        }
    } else {
        assert(pairs_to_map(s).remove(k) =~= pairs_to_map(s));
    }
}

/// Removing the pairs of a key that `s` lacks leaves `s` unchanged.
pub proof fn lemma_remove_absent_key<V>(s: Seq<(u64, V)>, k: u64)
    requires
        !has_key(s, k),
    ensures
        remove_key(s, k) == s,
    decreases s.len(),
{
    if s.len() > 0 {
        let t = s.drop_last();
        assert(!has_key(t, k)) by {
            if has_key(t, k) {
                let i = choose|i: int| 0 <= i < t.len() && t[i].0 == k;
                assert(s[i] == t[i]);
            }
        }
        lemma_remove_absent_key(t, k);
        assert(s.last() == s[s.len() - 1]);
        assert(t.push(s.last()) =~= s);
    }
}

/// With increasing keys, removing the pairs of the key at index `i` removes
/// that one index.
pub proof fn lemma_remove_key_index<V>(s: Seq<(u64, V)>, i: int)
    requires
        keys_increasing(s),
        0 <= i < s.len(),
    ensures
        remove_key(s, s[i].0) == s.remove(i),
    decreases s.len(),
{
    let t = s.drop_last();
    let k = s[i].0;
    if i == s.len() - 1 {
        assert(!has_key(t, k)) by {
            if has_key(t, k) {
                let j = choose|j: int| 0 <= j < t.len() && t[j].0 == k;
                assert(s[j] == t[j]);
            }
        }
        lemma_remove_absent_key(t, k);
        assert(s.remove(i) =~= t);
    } else {
        assert(t[i] == s[i]);
        lemma_remove_key_index(t, i);
        assert(s.last() == s[s.len() - 1]);
        assert(t.remove(i).push(s.last()) =~= s.remove(i));
    }
}

/// Removing the pairs of one key keeps the keys increasing.
pub proof fn lemma_remove_index_increasing<V>(s: Seq<(u64, V)>, i: int)
    requires
        keys_increasing(s),
        0 <= i < s.len(),
    ensures
        keys_increasing(s.remove(i)),
        forall|k: u64| has_key(s.remove(i), k) <==> has_key(s, k) && k != s[i].0,
{
    let r = s.remove(i);
    assert forall|a: int, b: int| 0 <= a < b < r.len() implies r[a].0 < r[b].0 by {
        let a2 = if a < i { a } else { a + 1 };
        let b2 = if b < i { b } else { b + 1 };
        assert(r[a] == s[a2]);
        assert(r[b] == s[b2]);
    }
    assert forall|k: u64| has_key(r, k) <==> has_key(s, k) && k != s[i].0 by {
        if has_key(r, k) {
            let a = choose|a: int| 0 <= a < r.len() && r[a].0 == k;
            let a2 = if a < i { a } else { a + 1 };
            assert(r[a] == s[a2]);
        }
        if has_key(s, k) && k != s[i].0 {
            let a = choose|a: int| 0 <= a < s.len() && s[a].0 == k;
            let a2 = if a < i { a } else { a - 1 };
            assert(r[a2] == s[a]);
        }
    }
}

} // verus!

verus! {

/// Where key `k` is in `v` (`Ok`), or the index at which it would be inserted
/// to keep the keys increasing (`Err`).
pub fn find_key<V>(v: &Vec<(u64, V)>, k: u64) -> (r: Result<usize, usize>)
    requires
        keys_increasing(v@),
    ensures
        r matches Ok(i) ==> i < v@.len() && v@[i as int].0 == k,
        r matches Err(p) ==> p <= v@.len() && !has_key(v@, k)
            && (forall|x: int| 0 <= x < p ==> v@[x].0 < k)
            && (forall|x: int| p <= x < v@.len() ==> k < v@[x].0),
{
    let mut lo: usize = 0;
    let mut hi: usize = v.len();
    while lo < hi
        invariant
            0 <= lo <= hi <= v@.len(),
            keys_increasing(v@),
            forall|x: int| 0 <= x < lo ==> v@[x].0 < k,
            forall|x: int| hi <= x < v@.len() ==> k < v@[x].0,
        decreases hi - lo,
    {
        let mid = lo + (hi - lo) / 2;
        if v[mid].0 == k {
            return Ok(mid);
        } else if v[mid].0 < k {
            lo = mid + 1;
        } else {
            hi = mid;
        }
    }
    Err(lo)
}

/// Sets key `k` to `val`, adding the key where it is missing.
pub fn upsert<V>(v: &mut Vec<(u64, V)>, k: u64, val: V)
    requires
        keys_increasing(old(v)@),
    ensures
        keys_increasing(final(v)@),
        pairs_to_map(final(v)@) == pairs_to_map(old(v)@).insert(k, val),
        forall|x: u64| has_key(final(v)@, x) <==> has_key(old(v)@, x) || x == k,
{
    let ghost s = v@;
    proof {
        lemma_pairs_to_map(s);
    }
    match find_key(v, k) {
        Ok(i) => {
            v.set(i, (k, val));
            let ghost t = v@;
            assert(t =~= s.update(i as int, (k, val)));
            proof {
                assert forall|a: int, b: int| 0 <= a < b < t.len() implies t[a].0 < t[b].0 by {
                    assert(t[a].0 == s[a].0);
                    assert(t[b].0 == s[b].0);
                }
                lemma_pairs_to_map(t);
                assert forall|x: u64| has_key(t, x) <==> has_key(s, x) || x == k by {
                    if has_key(t, x) {
                        let a = choose|a: int| 0 <= a < t.len() && t[a].0 == x;
                        assert(t[a].0 == s[a].0);
                    }
                    if has_key(s, x) {
                        let a = choose|a: int| 0 <= a < s.len() && s[a].0 == x;
                        assert(t[a].0 == s[a].0);
                    }
                    if x == k {
                        assert(t[i as int].0 == k);
                    }
                }
                let m = pairs_to_map(s).insert(k, val);
                assert forall|x: u64| #[trigger] pairs_to_map(t).contains_key(x) implies pairs_to_map(t)[x]
                    == m[x] by {
                    assert(has_key(t, x));
                    let a = choose|a: int| 0 <= a < t.len() && t[a].0 == x;
                    assert(t[a].0 == s[a].0);
                    if a != i {
                        assert(t[a] == s[a]);
                    }
                }
                assert forall|x: u64| #[trigger] pairs_to_map(t).contains_key(x) <==> m.contains_key(x) by {
                    assert(pairs_to_map(t).contains_key(x) <==> has_key(t, x));
                    assert(pairs_to_map(s).contains_key(x) <==> has_key(s, x));
                }
                assert(pairs_to_map(t) =~= m);
            }
        },
        Err(p) => {
            v.insert(p, (k, val));
            let ghost t = v@;
            assert(t =~= s.insert(p as int, (k, val)));
            proof {
                assert forall|a: int| 0 <= a < t.len() implies #[trigger] t[a] == (if a < p { s[a] } else if a
                    == p { (k, val) } else { s[a - 1] }) by {}
                assert forall|a: int, b: int| 0 <= a < b < t.len() implies t[a].0 < t[b].0 by {}
                lemma_pairs_to_map(t);
                assert forall|x: u64| has_key(t, x) <==> has_key(s, x) || x == k by {
                    if has_key(t, x) {
                        let a = choose|a: int| 0 <= a < t.len() && t[a].0 == x;
                        assert(t[a] == (if a < p { s[a] } else if a == p { (k, val) } else { s[a - 1] }));
                    }
                    if has_key(s, x) {
                        let a = choose|a: int| 0 <= a < s.len() && s[a].0 == x;
                        if a < p {
                            assert(t[a] == s[a]);
                        } else {
                            assert(t[a + 1] == s[a]);
                        }
                    }
                    if x == k {
                        assert(t[p as int].0 == k);
                    }
                }
                let m = pairs_to_map(s).insert(k, val);
                assert forall|x: u64| #[trigger] pairs_to_map(t).contains_key(x) implies pairs_to_map(t)[x]
                    == m[x] by {
                    assert(has_key(t, x));
                    let a = choose|a: int| 0 <= a < t.len() && t[a].0 == x;
                    assert(t[a] == (if a < p { s[a] } else if a == p { (k, val) } else { s[a - 1] }));
                }
                assert forall|x: u64| #[trigger] pairs_to_map(t).contains_key(x) <==> m.contains_key(x) by {
                    assert(pairs_to_map(t).contains_key(x) <==> has_key(t, x));
                    assert(pairs_to_map(s).contains_key(x) <==> has_key(s, x));
                }
                assert(pairs_to_map(t) =~= m);
            }
        },
    }
}

/// Removes key `k`, if present.
pub fn remove_key_exec<V>(v: &mut Vec<(u64, V)>, k: u64)
    requires
        keys_increasing(old(v)@),
    ensures
        keys_increasing(final(v)@),
        final(v)@ == remove_key(old(v)@, k),
        pairs_to_map(final(v)@) == pairs_to_map(old(v)@).remove(k),
        forall|x: u64| has_key(final(v)@, x) <==> has_key(old(v)@, x) && x != k,
{
    proof {
        lemma_remove_key_map(v@, k);
    }
    match find_key(v, k) {
        Ok(i) => {
            proof {
                lemma_remove_key_index(v@, i as int);
                lemma_remove_index_increasing(v@, i as int);
            }
            v.remove(i);
        },
        Err(_) => {
            proof {
                lemma_remove_absent_key(v@, k);
            }
        },
    }
}

} // verus!
