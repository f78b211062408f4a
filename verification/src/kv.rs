//! Association sequences as maps: the view of a key-value table held as a
//! vector of pairs, and the lemmas that characterize it.

use vstd::prelude::*;

verus! {

/// The map an association sequence denotes; on duplicate keys the later
/// entry wins.
pub open spec fn pair_map<K, V>(s: Seq<(K, V)>) -> Map<K, V>
    decreases s.len(),
{
    if s.len() == 0 {
        Map::empty()
    } else {
        pair_map(s.drop_last()).insert(s.last().0, s.last().1)
    }
}

/// No two entries share a key.
pub open spec fn unique_keys<K, V>(s: Seq<(K, V)>) -> bool {
    forall|i: int, j: int| 0 <= i < j < s.len() ==> (#[trigger] s[i]).0 != (#[trigger] s[j]).0
}

/// A key is in the map exactly when some entry carries it.
pub proof fn lemma_pair_map_dom<K, V>(s: Seq<(K, V)>, k: K)
    ensures
        pair_map(s).contains_key(k) <==> exists|i: int| 0 <= i < s.len() && (#[trigger] s[i]).0 == k,
    decreases s.len(),
{
    if s.len() > 0 {
        lemma_pair_map_dom(s.drop_last(), k);
        assert(forall|i: int| 0 <= i < s.len() - 1 ==> s.drop_last()[i] == s[i]);
        if s.last().0 == k {
            assert((s[s.len() - 1]).0 == k);
        } else {
            if pair_map(s).contains_key(k) {
                let i = choose|i: int|
                    0 <= i < s.drop_last().len() && (#[trigger] s.drop_last()[i]).0 == k;
                assert((s[i]).0 == k);
            }
            if exists|i: int| 0 <= i < s.len() && (#[trigger] s[i]).0 == k {
                let i = choose|i: int| 0 <= i < s.len() && (#[trigger] s[i]).0 == k;
                assert(i < s.len() - 1);
                assert((s.drop_last()[i]).0 == k);
            }
        }
    }
}

/// With unique keys, each entry's key maps to its value.
pub proof fn lemma_pair_map_index<K, V>(s: Seq<(K, V)>, i: int)
    requires
        unique_keys(s),
        0 <= i < s.len(),
    ensures
        pair_map(s).contains_key(s[i].0),
        pair_map(s)[s[i].0] == s[i].1,
    decreases s.len(),
{
    if i < s.len() - 1 {
        lemma_pair_map_index(s.drop_last(), i);
        assert(s.drop_last()[i] == s[i]);
        assert((s[s.len() - 1]).0 != (s[i]).0);
    }
}

/// With unique keys, the map holds exactly as many keys as the sequence
/// holds entries.
pub proof fn lemma_pair_map_len<K, V>(s: Seq<(K, V)>)
    requires
        unique_keys(s),
    ensures
        pair_map(s).dom().finite(),
        pair_map(s).dom().len() == s.len(),
    decreases s.len(),
{
    if s.len() > 0 {
        assert(forall|j: int| 0 <= j < s.len() - 1 ==> s.drop_last()[j] == s[j]);
        lemma_pair_map_len(s.drop_last());
        lemma_pair_map_dom(s.drop_last(), s.last().0);
        assert(!pair_map(s.drop_last()).contains_key(s.last().0));
    }
}

/// Replacing the value at an entry's own key updates the map at that key.
pub proof fn lemma_pair_map_update<K, V>(s: Seq<(K, V)>, i: int, k: K, v: V)
    requires
        unique_keys(s),
        0 <= i < s.len(),
        s[i].0 == k,
    ensures
        pair_map(s.update(i, (k, v))) == pair_map(s).insert(k, v),
    decreases s.len(),
{
    let s2 = s.update(i, (k, v));
    if i == s.len() - 1 {
        assert(s2.drop_last() == s.drop_last());
        assert(s2.last() == (k, v));
        assert(pair_map(s2) =~= pair_map(s).insert(k, v));
    } else {
        assert(forall|j: int| 0 <= j < s.len() - 1 ==> s.drop_last()[j] == s[j]);
        assert(s2.drop_last() =~= s.drop_last().update(i, (k, v)));
        assert(s2.last() == s.last());
        lemma_pair_map_update(s.drop_last(), i, k, v);
        assert((s[s.len() - 1]).0 != k);
        assert(pair_map(s2) =~= pair_map(s).insert(k, v));
    }
}

/// Inserting an entry under a fresh key anywhere in the sequence inserts
/// into the map.
pub proof fn lemma_pair_map_insert<K, V>(s: Seq<(K, V)>, i: int, k: K, v: V)
    requires
        0 <= i <= s.len(),
        forall|j: int| 0 <= j < s.len() ==> (#[trigger] s[j]).0 != k,
    ensures
        pair_map(s.insert(i, (k, v))) == pair_map(s).insert(k, v),
    decreases s.len(),
{
    let s2 = s.insert(i, (k, v));
    s.insert_ensures(i, (k, v));
    if i == s.len() {
        assert(s2 =~= s.push((k, v)));
        assert(s2.drop_last() == s);
        assert(s2.last() == (k, v));
    } else {
        assert(forall|j: int| 0 <= j < s.len() - 1 ==> s.drop_last()[j] == s[j]);
        assert(s2.drop_last() =~= s.drop_last().insert(i, (k, v)));
        assert(s2.last() == s.last());
        lemma_pair_map_insert(s.drop_last(), i, k, v);
        assert((s[s.len() - 1]).0 != k);
        assert(pair_map(s2) =~= pair_map(s).insert(k, v));
    }
}

/// Removing an entry removes its key from the map.
pub proof fn lemma_pair_map_remove<K, V>(s: Seq<(K, V)>, i: int)
    requires
        unique_keys(s),
        0 <= i < s.len(),
    ensures
        pair_map(s.remove(i)) == pair_map(s).remove(s[i].0),
    decreases s.len(),
{
    let s2 = s.remove(i);
    s.remove_ensures(i);
    let k = s[i].0;
    if i == s.len() - 1 {
        assert(s2 =~= s.drop_last());
        lemma_pair_map_dom(s.drop_last(), k);
        assert(forall|j: int| 0 <= j < s.len() - 1 ==> s.drop_last()[j] == s[j]);
        assert(!pair_map(s.drop_last()).contains_key(k));
        assert(pair_map(s2) =~= pair_map(s).remove(k));
    } else {
        assert(forall|j: int| 0 <= j < s.len() - 1 ==> s.drop_last()[j] == s[j]);
        assert(s2.drop_last() =~= s.drop_last().remove(i));
        assert(s2.last() == s.last());
        lemma_pair_map_remove(s.drop_last(), i);
        assert((s[s.len() - 1]).0 != k);
        assert(pair_map(s2) =~= pair_map(s).remove(k));
    }
}

} // verus!
