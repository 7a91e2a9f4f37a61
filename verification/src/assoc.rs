//! Viewing an association list with distinct keys as a map.
//!
//! Both the client aggregator and the server store keep their entries
//! in a vector of pairs keyed by counter name; their contracts speak
//! of the map those pairs denote.

use vstd::prelude::*;

verus! {

/// The map denoted by a run of key-value pairs; a later pair wins.
pub open spec fn keyed<V>(pairs: Seq<(Seq<char>, V)>) -> Map<Seq<char>, V>
    decreases pairs.len(),
{
    if pairs.len() == 0 {
        Map::empty()
    } else {
        keyed(pairs.drop_last()).insert(pairs.last().0, pairs.last().1)
    }
}

/// No key occurs twice.
pub open spec fn distinct_keys<V>(pairs: Seq<(Seq<char>, V)>) -> bool {
    forall|i: int, j: int| 0 <= i < j < pairs.len() ==> (#[trigger] pairs[i]).0 != (#[trigger] pairs[j]).0
}

/// A key is in the map exactly when some pair carries it.
pub proof fn lemma_keyed_contains<V>(pairs: Seq<(Seq<char>, V)>, k: Seq<char>)
    ensures
        keyed(pairs).contains_key(k) <==> exists|i: int| 0 <= i < pairs.len() && (
        #[trigger] pairs[i]).0 == k,
    decreases pairs.len(),
{
    if pairs.len() > 0 {
        lemma_keyed_contains(pairs.drop_last(), k);
        if pairs.last().0 == k {
            assert(pairs[pairs.len() - 1].0 == k);
        } else if keyed(pairs).contains_key(k) {
            let i = choose|i: int| 0 <= i < pairs.drop_last().len() && (#[trigger] pairs.drop_last()[i]).0 == k;
            assert(pairs[i].0 == k);
        } else if exists|i: int| 0 <= i < pairs.len() && (#[trigger] pairs[i]).0 == k {
            let i = choose|i: int| 0 <= i < pairs.len() && (#[trigger] pairs[i]).0 == k;
            assert(pairs.drop_last()[i].0 == k);
        }
    }
}

/// With distinct keys, each pair is what the map holds at its key.
pub proof fn lemma_keyed_at<V>(pairs: Seq<(Seq<char>, V)>, i: int)
    requires
        distinct_keys(pairs),
        0 <= i < pairs.len(),
    ensures
        keyed(pairs).contains_key(pairs[i].0),
        keyed(pairs)[pairs[i].0] == pairs[i].1,
    decreases pairs.len(),
{
    if i == pairs.len() - 1 {
    } else {
        assert(distinct_keys(pairs.drop_last()));
        lemma_keyed_at(pairs.drop_last(), i);
        assert(pairs.drop_last()[i] == pairs[i]);
        assert(pairs[i].0 != pairs.last().0);
    }
}

/// Appending a pair with a fresh key inserts it into the map.
pub proof fn lemma_keyed_push<V>(pairs: Seq<(Seq<char>, V)>, k: Seq<char>, v: V)
    ensures
        keyed(pairs.push((k, v))) == keyed(pairs).insert(k, v),
{
    assert(pairs.push((k, v)).drop_last() =~= pairs);
}

/// Replacing the value of the pair that carries a key overwrites that
/// key in the map.
pub proof fn lemma_keyed_update<V>(pairs: Seq<(Seq<char>, V)>, i: int, v: V)
    requires
        distinct_keys(pairs),
        0 <= i < pairs.len(),
    ensures
        keyed(pairs.update(i, (pairs[i].0, v))) =~= keyed(pairs).insert(pairs[i].0, v),
    decreases pairs.len(),
{
    let up = pairs.update(i, (pairs[i].0, v));
    if i == pairs.len() - 1 {
        assert(up.drop_last() =~= pairs.drop_last());
        assert(up.last() == (pairs[i].0, v));
    } else {
        assert(distinct_keys(pairs.drop_last()));
        assert(pairs.drop_last()[i] == pairs[i]);
        lemma_keyed_update(pairs.drop_last(), i, v);
        assert(up.drop_last() =~= pairs.drop_last().update(i, (pairs[i].0, v)));
        assert(up.last() == pairs.last());
        // inserting at two distinct keys commutes
        assert(pairs[i].0 != pairs.last().0);
        assert(keyed(pairs.drop_last()).insert(pairs[i].0, v).insert(
            pairs.last().0,
            pairs.last().1,
        ) =~= keyed(pairs.drop_last()).insert(pairs.last().0, pairs.last().1).insert(
            pairs[i].0,
            v,
        ));
    }
}

} // verus!
