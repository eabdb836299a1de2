//! Association sequences: the mathematical model shared by every keyed
//! collection in the store (page children, metadata fields, the blob table,
//! the named sequences).
//!
//! A collection is modelled as a sequence of key/value pairs with pairwise
//! distinct keys; `assoc_map` gives its `Map` reading.

use vstd::prelude::*;

verus! {

/// The map described by a sequence of key/value pairs; later pairs win,
/// though under `unique_keys` there is at most one pair per key.
pub open spec fn assoc_map<V>(s: Seq<(Seq<char>, V)>) -> Map<Seq<char>, V>
    decreases s.len(),
{
    if s.len() == 0 {
        Map::empty()
    } else {
        assoc_map(s.drop_last()).insert(s.last().0, s.last().1)
    }
}

/// No two pairs share a key.
pub open spec fn unique_keys<V>(s: Seq<(Seq<char>, V)>) -> bool {
    forall|i: int, j: int| 0 <= i < j < s.len() ==> s[i].0 != s[j].0
}

/// The position of a key in the sequence (meaningful under `unique_keys`).
pub open spec fn key_rank<V>(s: Seq<(Seq<char>, V)>, k: Seq<char>) -> int {
    choose|i: int| 0 <= i < s.len() && s[i].0 == k
}

/// The effect one binding has on a pair sequence: replace in place, or
/// append a fresh pair.
pub open spec fn pairs_insert<V>(s: Seq<(Seq<char>, V)>, k: Seq<char>, v: V) -> Seq<
    (Seq<char>, V),
> {
    if exists|i: int| 0 <= i < s.len() && s[i].0 == k {
        s.update(key_rank(s, k), (k, v))
    } else {
        s.push((k, v))
    }
}

/// `pairs_insert` means exactly `insert` on the map reading, and keeps keys
/// unique.
pub proof fn lemma_pairs_insert_map<V>(s: Seq<(Seq<char>, V)>, k: Seq<char>, v: V)
    requires
        unique_keys(s),
    ensures
        assoc_map(pairs_insert(s, k, v)) == assoc_map(s).insert(k, v),
        unique_keys(pairs_insert(s, k, v)),
{
    if exists|i: int| 0 <= i < s.len() && s[i].0 == k {
        let i = choose|i: int| 0 <= i < s.len() && s[i].0 == k;
        assert(key_rank(s, k) == i);
        lemma_assoc_update(s, i, v);
        assert(s.update(i, (s[i].0, v)) =~= s.update(i, (k, v)));
        assert(forall|j: int|
            0 <= j < s.len() ==> (#[trigger] s.update(i, (k, v))[j]).0 == s[j].0);
    } else {
        lemma_assoc_push(s, k, v);
        lemma_assoc_contains(s, k);
    }
}

/// The effect removing one key has on a pair sequence: the pair that carries
/// it goes, or nothing changes.
pub open spec fn pairs_remove<V>(s: Seq<(Seq<char>, V)>, k: Seq<char>) -> Seq<(Seq<char>, V)> {
    if exists|i: int| 0 <= i < s.len() && s[i].0 == k {
        s.remove(key_rank(s, k))
    } else {
        s
    }
}

/// Extending an association keeps every earlier binding, values included.
pub proof fn lemma_assoc_prefix<V>(s1: Seq<(Seq<char>, V)>, s2: Seq<(Seq<char>, V)>)
    requires
        s1.is_prefix_of(s2),
        unique_keys(s2),
    ensures
        forall|k: Seq<char>| #[trigger]
            assoc_map(s1).contains_key(k) ==> assoc_map(s2).contains_key(k) && assoc_map(s2)[k]
                == assoc_map(s1)[k],
    decreases s2.len(),
{
    if s1.len() == s2.len() {
        assert(s1 =~= s2);
    } else {
        assert(s1.is_prefix_of(s2.drop_last()));
        assert(unique_keys(s2.drop_last()));
        lemma_assoc_prefix(s1, s2.drop_last());
        assert forall|k: Seq<char>| #[trigger]
            assoc_map(s1).contains_key(k) implies assoc_map(s2).contains_key(k) && assoc_map(
            s2,
        )[k] == assoc_map(s1)[k] by {
            lemma_assoc_contains(s1, k);
            let i = choose|i: int| 0 <= i < s1.len() && s1[i].0 == k;
            assert(s2[i].0 == k);
            assert(s2.last().0 != k);
        }
    }
}

/// A key is in the map exactly when some pair carries it.
pub proof fn lemma_assoc_contains<V>(s: Seq<(Seq<char>, V)>, k: Seq<char>)
    ensures
        assoc_map(s).contains_key(k) <==> exists|i: int| 0 <= i < s.len() && s[i].0 == k,
    decreases s.len(),
{
    if s.len() > 0 {
        lemma_assoc_contains(s.drop_last(), k);
        if s.last().0 == k {
            assert(s[s.len() - 1].0 == k);
        } else {
            if exists|i: int| 0 <= i < s.len() && s[i].0 == k {
                let i = choose|i: int| 0 <= i < s.len() && s[i].0 == k;
                assert(i < s.len() - 1);
                assert(s.drop_last()[i].0 == k);
            }
            if exists|i: int| 0 <= i < s.drop_last().len() && s.drop_last()[i].0 == k {
                let i = choose|i: int| 0 <= i < s.drop_last().len() && s.drop_last()[i].0 == k;
                assert(s[i].0 == k);
            }
        }
    }
}

/// Under unique keys, the map value of a key is the value of its pair.
pub proof fn lemma_assoc_index<V>(s: Seq<(Seq<char>, V)>, i: int)
    requires
        unique_keys(s),
        0 <= i < s.len(),
    ensures
        assoc_map(s).contains_key(s[i].0),
        assoc_map(s)[s[i].0] == s[i].1,
    decreases s.len(),
{
    if i == s.len() - 1 {
    } else {
        lemma_assoc_index(s.drop_last(), i);
        assert(s.drop_last()[i] == s[i]);
        assert(s.last().0 != s[i].0);
    }
}

/// Appending a pair inserts its binding.
pub proof fn lemma_assoc_push<V>(s: Seq<(Seq<char>, V)>, k: Seq<char>, v: V)
    ensures
        assoc_map(s.push((k, v))) == assoc_map(s).insert(k, v),
{
    assert(s.push((k, v)).drop_last() =~= s);
}

/// Replacing the pair that carries a key rewrites that key's binding.
pub proof fn lemma_assoc_update<V>(s: Seq<(Seq<char>, V)>, i: int, v: V)
    requires
        unique_keys(s),
        0 <= i < s.len(),
    ensures
        assoc_map(s.update(i, (s[i].0, v))) == assoc_map(s).insert(s[i].0, v),
    decreases s.len(),
{
    let t = s.update(i, (s[i].0, v));
    if i == s.len() - 1 {
        assert(t.drop_last() =~= s.drop_last());
        assert(assoc_map(t) == assoc_map(s.drop_last()).insert(s[i].0, v));
        assert(assoc_map(s).insert(s[i].0, v) =~= assoc_map(s.drop_last()).insert(s[i].0, v));
    } else {
        lemma_assoc_update(s.drop_last(), i, v);
        assert(t.drop_last() =~= s.drop_last().update(i, (s[i].0, v)));
        assert(t.last() == s.last());
        assert(s.last().0 != s[i].0);
        assert(assoc_map(t) == assoc_map(s.drop_last()).insert(s[i].0, v).insert(
            s.last().0,
            s.last().1,
        ));
        assert(assoc_map(s).insert(s[i].0, v) =~= assoc_map(s.drop_last()).insert(
            s[i].0,
            v,
        ).insert(s.last().0, s.last().1));
    }
}

/// Removing the pair that carries a key removes that key's binding.
pub proof fn lemma_assoc_remove<V>(s: Seq<(Seq<char>, V)>, i: int)
    requires
        unique_keys(s),
        0 <= i < s.len(),
    ensures
        assoc_map(s.remove(i)) == assoc_map(s).remove(s[i].0),
    decreases s.len(),
{
    let t = s.remove(i);
    if i == s.len() - 1 {
        assert(t =~= s.drop_last());
        lemma_assoc_contains(s.drop_last(), s[i].0);
        assert(forall|j: int|
            0 <= j < s.drop_last().len() ==> s.drop_last()[j] == s[j] && s[j].0 != s[i].0);
        assert(!assoc_map(s.drop_last()).contains_key(s[i].0));
        assert(assoc_map(t) =~= assoc_map(s).remove(s[i].0));
    } else {
        lemma_assoc_remove(s.drop_last(), i);
        assert(t.drop_last() =~= s.drop_last().remove(i));
        assert(t.last() == s.last());
        assert(s.last().0 != s[i].0);
        assert(assoc_map(t) == assoc_map(s.drop_last()).remove(s[i].0).insert(
            s.last().0,
            s.last().1,
        ));
        assert(assoc_map(s).remove(s[i].0) =~= assoc_map(s.drop_last()).remove(s[i].0).insert(
            s.last().0,
            s.last().1,
        ));
    }
}

/// Re-inserting a binding a sequence already carries leaves its map unchanged.
pub proof fn lemma_assoc_insert_same<V>(s: Seq<(Seq<char>, V)>, i: int)
    requires
        unique_keys(s),
        0 <= i < s.len(),
    ensures
        assoc_map(s).insert(s[i].0, s[i].1) == assoc_map(s),
{
    lemma_assoc_index(s, i);
    assert(assoc_map(s).insert(s[i].0, s[i].1) =~= assoc_map(s));
}

} // verus!
