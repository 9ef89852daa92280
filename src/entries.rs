//! Ordered key/value entry sequences: the mathematical model of both the
//! loose and the canonical mappings of an import map.
use vstd::prelude::*;

verus! {

/// Position of the first entry whose key is `k`, or -1 when there is none.
pub open spec fn key_pos<K, V>(e: Seq<(K, V)>, k: K) -> int
    decreases e.len(),
{
    if e.len() == 0 {
        -1
    } else {
        let p = key_pos(e.drop_last(), k);
        if p >= 0 {
            p
        } else if e.last().0 == k {
            e.len() - 1
        } else {
            -1
        }
    }
}

/// The keys of `e`, in order.
pub open spec fn keys_of<K, V>(e: Seq<(K, V)>) -> Seq<K> {
    e.map_values(|p: (K, V)| p.0)
}

/// No key occurs twice in `e`.
pub open spec fn keys_unique<K, V>(e: Seq<(K, V)>) -> bool {
    forall|i: int, j: int| 0 <= i < j < e.len() ==> e[i].0 != e[j].0
}

/// Insertion into an order-preserving map: an existing key keeps its place
/// and takes the new value; a new key goes last.
pub open spec fn inserted<K, V>(e: Seq<(K, V)>, k: K, v: V) -> Seq<(K, V)> {
    let p = key_pos(e, k);
    if p >= 0 {
        e.update(p, (k, v))
    } else {
        e.push((k, v))
    }
}

/// Inserting every entry of `s`, front to back, into `e`.
pub open spec fn inserted_all<K, V>(e: Seq<(K, V)>, s: Seq<(K, V)>) -> Seq<(K, V)>
    decreases s.len(),
{
    if s.len() == 0 {
        e
    } else {
        let prev = inserted_all(e, s.drop_last());
        inserted(prev, s.last().0, s.last().1)
    }
}

/// The mapping that a list of entries denotes; where a key repeats, its last
/// entry wins.
pub open spec fn as_map<K, V>(e: Seq<(K, V)>) -> Map<K, V>
    decreases e.len(),
{
    if e.len() == 0 {
        Map::empty()
    } else {
        as_map(e.drop_last()).insert(e.last().0, e.last().1)
    }
}

/// The keys of `ks` in the order of their first occurrence.
pub open spec fn first_occurrences<K>(ks: Seq<K>) -> Seq<K>
    decreases ks.len(),
{
    if ks.len() == 0 {
        Seq::empty()
    } else {
        let d = first_occurrences(ks.drop_last());
        if ks.drop_last().contains(ks.last()) {
            d
        } else {
            d.push(ks.last())
        }
    }
}

/// `key_pos` finds an entry exactly when one has the key, and then the first.
pub proof fn lemma_key_pos<K, V>(e: Seq<(K, V)>, k: K)
    ensures
        -1 <= key_pos(e, k) < e.len(),
        key_pos(e, k) >= 0 ==> e[key_pos(e, k)].0 == k,
        key_pos(e, k) >= 0 ==> forall|i: int| 0 <= i < key_pos(e, k) ==> e[i].0 != k,
        key_pos(e, k) < 0 <==> !keys_of(e).contains(k),
    decreases e.len(),
{
    if e.len() > 0 {
        lemma_key_pos(e.drop_last(), k);
        let p = key_pos(e.drop_last(), k);
        if p >= 0 {
            assert(keys_of(e)[p] == k);
            assert forall|i: int| 0 <= i < p implies e[i].0 != k by {
                assert(e.drop_last()[i] == e[i]);
            }
        } else if e.last().0 == k {
            assert(keys_of(e)[e.len() - 1] == k);
            assert forall|i: int| 0 <= i < e.len() - 1 implies e[i].0 != k by {
                assert(keys_of(e.drop_last())[i] == e[i].0);
            }
        } else {
            assert forall|i: int| 0 <= i < e.len() implies keys_of(e)[i] != k by {
                if i < e.len() - 1 {
                    assert(keys_of(e.drop_last())[i] == e[i].0);
                }
            }
        }
    }
}

/// In a list without repeated keys, the first entry with a key is its only one.
pub proof fn lemma_unique_pos<K, V>(e: Seq<(K, V)>, i: int)
    requires
        keys_unique(e),
        0 <= i < e.len(),
    ensures
        key_pos(e, e[i].0) == i,
{
    lemma_key_pos(e, e[i].0);
    assert(keys_of(e)[i] == e[i].0);
}

/// A key is in the denoted mapping exactly when some entry has it; without
/// repeated keys, its value is that of its entry.
pub proof fn lemma_as_map<K, V>(e: Seq<(K, V)>, k: K)
    ensures
        as_map(e).dom().finite(),
        as_map(e).contains_key(k) <==> keys_of(e).contains(k),
        keys_unique(e) && keys_of(e).contains(k) ==> {
            &&& 0 <= key_pos(e, k)
            &&& as_map(e)[k] == e[key_pos(e, k)].1
        },
    decreases e.len(),
{
    lemma_key_pos(e, k);
    if e.len() > 0 {
        let d = e.drop_last();
        lemma_as_map(d, k);
        lemma_key_pos(d, k);
        assert(keys_of(d) =~= keys_of(e).drop_last());
        if keys_of(e).contains(k) && !keys_of(d).contains(k) {
            let i = choose|i: int| 0 <= i < keys_of(e).len() && keys_of(e)[i] == k;
            if i < e.len() - 1 {
                assert(keys_of(d)[i] == k);
            }
            assert(e.last().0 == k);
        }
        if keys_unique(e) && keys_of(e).contains(k) {
            if e.last().0 == k {
                lemma_unique_pos(e, e.len() - 1);
            } else {
                assert(keys_unique(d));
            }
        }
    }
}

/// Without repeated keys, the denoted mapping has one key per entry.
pub proof fn lemma_as_map_len<K, V>(e: Seq<(K, V)>)
    requires
        keys_unique(e),
    ensures
        as_map(e).dom().len() == e.len(),
    decreases e.len(),
{
    if e.len() > 0 {
        let d = e.drop_last();
        assert(keys_unique(d));
        lemma_as_map_len(d);
        lemma_as_map(d, e.last().0);
        if keys_of(d).contains(e.last().0) {
            let i = choose|i: int| 0 <= i < keys_of(d).len() && keys_of(d)[i] == e.last().0;
            assert(e[i].0 == e[e.len() - 1].0);
        }
    }
}

/// Insertion keeps keys unique, updates the denoted mapping at one key, and
/// appends the key to the key order only when it is new.
pub proof fn lemma_inserted<K, V>(e: Seq<(K, V)>, k: K, v: V)
    requires
        keys_unique(e),
    ensures
        keys_unique(inserted(e, k, v)),
        as_map(inserted(e, k, v)) == as_map(e).insert(k, v),
        keys_of(inserted(e, k, v)) == (if keys_of(e).contains(k) {
            keys_of(e)
        } else {
            keys_of(e).push(k)
        }),
{
    let e2 = inserted(e, k, v);
    let p = key_pos(e, k);
    lemma_key_pos(e, k);
    if p >= 0 {
        assert(keys_of(e2) =~= keys_of(e));
    } else {
        assert(keys_of(e2) =~= keys_of(e).push(k));
        assert forall|i: int| 0 <= i < e.len() implies e[i].0 != k by {
            assert(keys_of(e)[i] == e[i].0);
        }
    }
    assert(keys_unique(e2));
    assert forall|j: K| #[trigger] as_map(e2).contains_key(j) <==> as_map(e).insert(k, v).contains_key(j) by {
        lemma_as_map(e2, j);
        lemma_as_map(e, j);
        if j != k && keys_of(e2).contains(j) {
            let i = choose|i: int| 0 <= i < keys_of(e2).len() && keys_of(e2)[i] == j;
            assert(keys_of(e)[i] == j);
        }
        if keys_of(e).contains(j) {
            let i = choose|i: int| 0 <= i < keys_of(e).len() && keys_of(e)[i] == j;
            assert(keys_of(e2)[i] == j);
        }
        if j == k {
            if p >= 0 {
                assert(keys_of(e2)[p] == k);
            } else {
                assert(keys_of(e2)[e.len() as int] == k);
            }
        }
    }
    assert forall|j: K| #[trigger] as_map(e2).contains_key(j) implies as_map(e2)[j] == as_map(e).insert(k, v)[j] by {
        lemma_as_map(e2, j);
        lemma_as_map(e, j);
        let i = key_pos(e2, j);
        lemma_key_pos(e2, j);
        if j != k {
            assert(e2[i] == e[i]);
            assert(keys_of(e)[i] == j);
            lemma_unique_pos(e, i);
        }
    }
    assert(as_map(e2) =~= as_map(e).insert(k, v));
}

/// Inserting a list of entries into an empty map gives a map without
/// repeated keys that denotes the same mapping as the list.
pub proof fn lemma_inserted_all<K, V>(s: Seq<(K, V)>)
    ensures
        keys_unique(inserted_all(Seq::empty(), s)),
        as_map(inserted_all(Seq::empty(), s)) == as_map(s),
        keys_of(inserted_all(Seq::empty(), s)) == first_occurrences(keys_of(s)),
    decreases s.len(),
{
    if s.len() > 0 {
        let d = s.drop_last();
        let prev = inserted_all(Seq::empty(), d);
        lemma_inserted_all(d);
        lemma_inserted(prev, s.last().0, s.last().1);
        assert(keys_of(s).drop_last() =~= keys_of(d));
        assert(keys_of(s).last() == s.last().0);
        lemma_as_map(prev, s.last().0);
        lemma_as_map(d, s.last().0);
    }
}

/// `e` with `f` applied to the value of every entry.
pub open spec fn map_entry_values<K, V, W>(e: Seq<(K, V)>, f: spec_fn(V) -> W) -> Seq<(K, W)> {
    e.map_values(|p: (K, V)| (p.0, f(p.1)))
}

/// The mapping from scope prefix to scope mapping that a list of scopes denotes.
pub open spec fn nested_as_map<K, J, V>(e: Seq<(K, Seq<(J, V)>)>) -> Map<K, Map<J, V>> {
    as_map(e).map_values(|x: Seq<(J, V)>| as_map(x))
}

/// Applying `f` to the value of every entry applies it to every value of the
/// denoted mapping.
pub proof fn lemma_as_map_map_values<K, V, W>(e: Seq<(K, V)>, f: spec_fn(V) -> W)
    ensures
        as_map(map_entry_values(e, f)) == as_map(e).map_values(f),
    decreases e.len(),
{
    if e.len() > 0 {
        lemma_as_map_map_values(e.drop_last(), f);
        assert(map_entry_values(e, f).drop_last() =~= map_entry_values(e.drop_last(), f));
        assert(as_map(map_entry_values(e, f)) =~= as_map(e).map_values(f));
    }
}

/// Inserting entries with distinct keys into an empty map keeps them exactly
/// as inserted.
pub proof fn lemma_inserted_all_distinct<K, V>(s: Seq<(K, V)>)
    requires
        keys_unique(s),
    ensures
        inserted_all(Seq::empty(), s) == s,
    decreases s.len(),
{
    if s.len() > 0 {
        let d = s.drop_last();
        assert(keys_unique(d));
        lemma_inserted_all_distinct(d);
        lemma_key_pos(d, s.last().0);
        if key_pos(d, s.last().0) >= 0 {
            assert(s[key_pos(d, s.last().0)].0 == s[s.len() - 1].0);
        }
        assert(d.push(s.last()) =~= s);
    }
}

} // verus!
