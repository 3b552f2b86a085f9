//! Laws of the trie as a map, stated over the model that the contracts of
//! `empty`, `bind` and `lookup` speak of, and proved once and for all.

use vstd::prelude::*;

use crate::trie::PatriciaTrie;

verus! {

/// The map left after binding every pair of `pairs`, in order, over `m`.
pub open spec fn bound_after<T>(m: Map<Seq<char>, T>, pairs: Seq<(Seq<char>, T)>) -> Map<
    Seq<char>,
    T,
>
    decreases pairs.len(),
{
    if pairs.len() == 0 {
        m
    } else {
        bound_after(m, pairs.drop_last()).insert(pairs.last().0, pairs.last().1)
    }
}

/// Round trip: binding pairwise-distinct keys into the empty trie, in any
/// order, leaves every key bound to its own value. With the contracts of
/// `empty`, `bind` and `lookup`, a lookup of each key after all the binds
/// returns the value most recently bound for it.
pub proof fn lemma_round_trip<T>(pairs: Seq<(Seq<char>, T)>, i: int)
    requires
        0 <= i < pairs.len(),
        forall|a: int, b: int| 0 <= a < b < pairs.len() ==> pairs[a].0 != pairs[b].0,
    ensures
        bound_after(Map::<Seq<char>, T>::empty(), pairs).contains_key(pairs[i].0),
        bound_after(Map::<Seq<char>, T>::empty(), pairs)[pairs[i].0] == pairs[i].1,
    decreases pairs.len(),
{
    if i < pairs.len() - 1 {
        let front = pairs.drop_last();
        assert forall|a: int, b: int| 0 <= a < b < front.len() implies front[a].0 != front[b].0 by {
            assert(front[a] == pairs[a]);
            assert(front[b] == pairs[b]);
        }
        assert(front[i] == pairs[i]);
        lemma_round_trip(front, i);
        assert(pairs.last().0 != pairs[i].0);
    }
}

/// Overwrite: binding the same key twice keeps only the second value; the
/// result is the same map as binding the key once with that value.
pub proof fn lemma_overwrite<T>(t: PatriciaTrie<T>, k: Seq<char>, v1: T, v2: T)
    ensures
        t@.insert(k, v1).insert(k, v2) == t@.insert(k, v2),
{
    assert(t@.insert(k, v1).insert(k, v2) =~= t@.insert(k, v2));
}

/// Sharing and prefix independence, one half: binding a key never disturbs
/// any other key, whether it lives on a shared subtree or extends the bound
/// key, and no key appears beyond the bound one.
pub proof fn lemma_bind_preserves_others<T>(t: PatriciaTrie<T>, k: Seq<char>, v: T, k2: Seq<char>)
    requires
        k2 != k,
    ensures
        t@.insert(k, v).contains_key(k2) == t@.contains_key(k2),
        t@.contains_key(k2) ==> t@.insert(k, v)[k2] == t@[k2],
{
}

/// Prefix independence, the other half: any key is insertable into any trie
/// and immediately retrievable, in particular one that is a proper prefix of
/// keys already stored.
pub proof fn lemma_bind_then_lookup<T>(t: PatriciaTrie<T>, k: Seq<char>, v: T)
    ensures
        t@.insert(k, v).contains_key(k),
        t@.insert(k, v)[k] == v,
{
}

} // verus!
