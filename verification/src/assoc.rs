//! Association sequences with distinct keys, and their interpretation as
//! finite maps. The library index, the reading-progress record and the
//! orchestrator's tables are all stored as vectors of key/value pairs; their
//! contracts speak about the map each vector denotes.

use vstd::prelude::*;

verus! {

/// Holds when no key occurs twice in the sequence.
pub open spec fn distinct_keys<K, V>(s: Seq<(K, V)>) -> bool {
    forall|i: int, j: int| 0 <= i < j < s.len() ==> s[i].0 != s[j].0
}

/// The finite map an association sequence denotes; later pairs win.
pub open spec fn map_of<K, V>(s: Seq<(K, V)>) -> Map<K, V>
    decreases s.len(),
{
    if s.len() == 0 {
        Map::empty()
    } else {
        map_of(s.drop_last()).insert(s.last().0, s.last().1)
    }
}

/// A key is in the map exactly when some pair carries it.
pub proof fn lemma_map_of_contains_key<K, V>(s: Seq<(K, V)>, k: K)
    ensures
        map_of(s).contains_key(k) <==> exists|i: int| 0 <= i < s.len() && s[i].0 == k,
    decreases s.len(),
{
    if s.len() > 0 {
        lemma_map_of_contains_key(s.drop_last(), k);
        if s.last().0 == k {
            assert(s[s.len() - 1].0 == k);
        } else if map_of(s).contains_key(k) {
            let i = choose|i: int| 0 <= i < s.drop_last().len() && s.drop_last()[i].0 == k;
            assert(s[i].0 == k);
        } else if exists|i: int| 0 <= i < s.len() && s[i].0 == k {
            let i = choose|i: int| 0 <= i < s.len() && s[i].0 == k;
            assert(s.drop_last()[i].0 == k);
        }
    }
}

/// With distinct keys, each pair's key looks up that pair's value.
pub proof fn lemma_map_of_index<K, V>(s: Seq<(K, V)>, i: int)
    requires
        distinct_keys(s),
        0 <= i < s.len(),
    ensures
        map_of(s).contains_key(s[i].0),
        map_of(s)[s[i].0] == s[i].1,
    decreases s.len(),
{
    lemma_map_of_contains_key(s, s[i].0);
    if i < s.len() - 1 {
        assert(s[i].0 != s.last().0);
        assert(s.drop_last()[i] == s[i]);
        lemma_map_of_index(s.drop_last(), i);
    }
}

/// The domain of the map is finite.
pub proof fn lemma_map_of_finite<K, V>(s: Seq<(K, V)>)
    ensures
        map_of(s).dom().finite(),
    decreases s.len(),
{
    if s.len() > 0 {
        lemma_map_of_finite(s.drop_last());
    }
}

/// With distinct keys, the map has exactly one entry per pair.
pub proof fn lemma_map_of_len<K, V>(s: Seq<(K, V)>)
    requires
        distinct_keys(s),
    ensures
        map_of(s).dom().finite(),
        map_of(s).len() == s.len(),
    decreases s.len(),
{
    lemma_map_of_finite(s);
    if s.len() > 0 {
        lemma_map_of_len(s.drop_last());
        lemma_map_of_contains_key(s.drop_last(), s.last().0);
        assert(forall|i: int| 0 <= i < s.drop_last().len() ==> s[i].0 != s.last().0);
        assert(!map_of(s.drop_last()).contains_key(s.last().0));
    }
}

/// Replacing the value at position `i` inserts over the same key.
pub proof fn lemma_map_of_update<K, V>(s: Seq<(K, V)>, i: int, v: V)
    requires
        distinct_keys(s),
        0 <= i < s.len(),
    ensures
        distinct_keys(s.update(i, (s[i].0, v))),
        map_of(s.update(i, (s[i].0, v))) =~= map_of(s).insert(s[i].0, v),
    decreases s.len(),
{
    let t = s.update(i, (s[i].0, v));
    assert(forall|j: int| 0 <= j < s.len() ==> t[j].0 == s[j].0);
    if i == s.len() - 1 {
        assert(t.drop_last() =~= s.drop_last());
        assert(t.last() == (s[i].0, v));
    } else {
        assert(t.drop_last() =~= s.drop_last().update(i, (s[i].0, v)));
        assert(s.drop_last()[i] == s[i]);
        lemma_map_of_update(s.drop_last(), i, v);
        assert(t.last() == s.last());
        assert(s[i].0 != s.last().0);
    }
}

/// Appending a pair with a fresh or existing key inserts it into the map.
pub proof fn lemma_map_of_push<K, V>(s: Seq<(K, V)>, k: K, v: V)
    ensures
        map_of(s.push((k, v))) =~= map_of(s).insert(k, v),
{
    assert(s.push((k, v)).drop_last() =~= s);
}

/// Inserts or replaces the value under `k`: the first pair carrying `k` is
/// replaced in place; a fresh key goes to the end.
pub open spec fn set_assoc<K, V>(s: Seq<(K, V)>, k: K, v: V) -> Seq<(K, V)>
    decreases s.len(),
{
    if s.len() == 0 {
        seq![(k, v)]
    } else if s[0].0 == k {
        seq![(k, v)] + s.drop_first()
    } else {
        seq![s[0]] + set_assoc(s.drop_first(), k, v)
    }
}

/// With distinct keys, inserting over an existing key is an in-place update.
pub proof fn lemma_set_assoc_update<K, V>(s: Seq<(K, V)>, i: int, v: V)
    requires
        distinct_keys(s),
        0 <= i < s.len(),
    ensures
        set_assoc(s, s[i].0, v) == s.update(i, (s[i].0, v)),
    decreases i,
{
    let k = s[i].0;
    if i == 0 {
        assert(set_assoc(s, k, v) == seq![(k, v)] + s.drop_first());
        assert(seq![(k, v)] + s.drop_first() =~= s.update(0, (k, v)));
    } else {
        assert(s[0].0 != k);
        assert(s.drop_first()[i - 1] == s[i]);
        assert(distinct_keys(s.drop_first())) by {
            assert(forall|p: int, q: int|
                0 <= p < q < s.drop_first().len() ==> s.drop_first()[p] == s[p + 1]
                    && s.drop_first()[q] == s[q + 1]);
        }
        lemma_set_assoc_update(s.drop_first(), i - 1, v);
        assert(seq![s[0]] + s.drop_first().update(i - 1, (k, v)) =~= s.update(i, (k, v)));
    }
}

/// Inserting a key no pair carries appends it at the end.
pub proof fn lemma_set_assoc_push<K, V>(s: Seq<(K, V)>, k: K, v: V)
    requires
        forall|i: int| 0 <= i < s.len() ==> s[i].0 != k,
    ensures
        set_assoc(s, k, v) == s.push((k, v)),
    decreases s.len(),
{
    if s.len() == 0 {
        assert(seq![(k, v)] =~= s.push((k, v)));
    } else {
        assert(s[0].0 != k);
        assert(forall|i: int|
            0 <= i < s.drop_first().len() ==> #[trigger] s.drop_first()[i] == s[i + 1]);
        lemma_set_assoc_push(s.drop_first(), k, v);
        assert(seq![s[0]] + s.drop_first().push((k, v)) =~= s.push((k, v)));
    }
}

/// Writing the same value under the same key twice is one write.
pub proof fn lemma_set_assoc_idempotent<K, V>(s: Seq<(K, V)>, k: K, v: V)
    ensures
        set_assoc(set_assoc(s, k, v), k, v) == set_assoc(s, k, v),
    decreases s.len(),
{
    let t = set_assoc(s, k, v);
    if s.len() == 0 {
        assert(t == seq![(k, v)]);
        assert(t[0].0 == k);
        assert(seq![(k, v)] + t.drop_first() =~= t);
    } else if s[0].0 == k {
        assert(t == seq![(k, v)] + s.drop_first());
        assert(t[0].0 == k);
        assert(seq![(k, v)] + t.drop_first() =~= t);
    } else {
        assert(t == seq![s[0]] + set_assoc(s.drop_first(), k, v));
        assert(t[0] == s[0]);
        assert(t.drop_first() =~= set_assoc(s.drop_first(), k, v));
        lemma_set_assoc_idempotent(s.drop_first(), k, v);
        assert(seq![s[0]] + set_assoc(t.drop_first(), k, v) =~= t);
    }
}

/// Removes the first pair carrying `k`, if any.
pub open spec fn remove_assoc<K, V>(s: Seq<(K, V)>, k: K) -> Seq<(K, V)>
    decreases s.len(),
{
    if s.len() == 0 {
        s
    } else if s[0].0 == k {
        s.drop_first()
    } else {
        seq![s[0]] + remove_assoc(s.drop_first(), k)
    }
}

/// With distinct keys, removing an existing key drops exactly its pair.
pub proof fn lemma_remove_assoc_at<K, V>(s: Seq<(K, V)>, i: int)
    requires
        distinct_keys(s),
        0 <= i < s.len(),
    ensures
        remove_assoc(s, s[i].0) == s.remove(i),
    decreases i,
{
    let k = s[i].0;
    if i == 0 {
        assert(s.drop_first() =~= s.remove(0));
    } else {
        assert(s[0].0 != k);
        assert(s.drop_first()[i - 1] == s[i]);
        assert(distinct_keys(s.drop_first())) by {
            assert(forall|p: int, q: int|
                0 <= p < q < s.drop_first().len() ==> s.drop_first()[p] == s[p + 1]
                    && s.drop_first()[q] == s[q + 1]);
        }
        lemma_remove_assoc_at(s.drop_first(), i - 1);
        assert(seq![s[0]] + s.drop_first().remove(i - 1) =~= s.remove(i));
    }
}

/// Removing a key no pair carries changes nothing.
pub proof fn lemma_remove_assoc_absent<K, V>(s: Seq<(K, V)>, k: K)
    requires
        forall|i: int| 0 <= i < s.len() ==> s[i].0 != k,
    ensures
        remove_assoc(s, k) == s,
    decreases s.len(),
{
    if s.len() > 0 {
        assert(s[0].0 != k);
        assert(forall|i: int|
            0 <= i < s.drop_first().len() ==> #[trigger] s.drop_first()[i] == s[i + 1]);
        lemma_remove_assoc_absent(s.drop_first(), k);
        assert(seq![s[0]] + s.drop_first() =~= s);
    }
}

/// Removing the pair at position `i` removes its key from the map.
pub proof fn lemma_map_of_remove<K, V>(s: Seq<(K, V)>, i: int)
    requires
        distinct_keys(s),
        0 <= i < s.len(),
    ensures
        distinct_keys(s.remove(i)),
        map_of(s.remove(i)) =~= map_of(s).remove(s[i].0),
    decreases s.len(),
{
    let t = s.remove(i);
    assert forall|p: int, q: int| 0 <= p < q < t.len() implies t[p].0 != t[q].0 by {
        let p0: int = if p < i { p } else { p + 1 };
        let q0: int = if q < i { q } else { q + 1 };
        assert(t[p] == s[p0]);
        assert(t[q] == s[q0]);
    }
    if i == s.len() - 1 {
        assert(t =~= s.drop_last());
        lemma_map_of_contains_key(s.drop_last(), s[i].0);
        assert(forall|j: int| 0 <= j < s.drop_last().len() ==> s[j].0 != s[i].0);
        assert(!map_of(s.drop_last()).contains_key(s[i].0));
        assert(map_of(s.drop_last()).remove(s[i].0) =~= map_of(s.drop_last()));
        assert(map_of(s).remove(s[i].0) =~= map_of(s.drop_last()));
    } else {
        assert(t.drop_last() =~= s.drop_last().remove(i));
        assert(s.drop_last()[i] == s[i]);
        lemma_map_of_remove(s.drop_last(), i);
        assert(t.last() == s.last());
        assert(s[i].0 != s.last().0);
    }
}

} // verus!
