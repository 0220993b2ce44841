//! Association lists viewed as maps.
//!
//! The registry stores its two maps as vectors of key/value pairs; these
//! spec functions and lemmas relate such a list (with unique keys) to the
//! `Map` it denotes.
use vstd::prelude::*;

verus! {

/// The map denoted by an association list; later entries shadow earlier ones.
pub open spec fn amap<K, V>(s: Seq<(K, V)>) -> Map<K, V>
    decreases s.len(),
{
    if s.len() == 0 {
        Map::empty()
    } else {
        amap(s.drop_last()).insert(s.last().0, s.last().1)
    }
}

/// No two entries share a key.
pub open spec fn keys_unique<K, V>(s: Seq<(K, V)>) -> bool {
    forall|i: int, j: int| 0 <= i < j < s.len() ==> (#[trigger] s[i]).0 != (#[trigger] s[j]).0
}

/// A key is in the map exactly when some entry carries it.
pub proof fn lemma_amap_contains<K, V>(s: Seq<(K, V)>, k: K)
    ensures
        amap(s).contains_key(k) <==> exists|i: int| 0 <= i < s.len() && (#[trigger] s[i]).0 == k,
    decreases s.len(),
{
    if s.len() > 0 {
        let d = s.drop_last();
        lemma_amap_contains(d, k);
        if s.last().0 == k {
            assert(s[s.len() - 1].0 == k);
        } else if amap(s).contains_key(k) {
            let i = choose|i: int| 0 <= i < d.len() && (#[trigger] d[i]).0 == k;
            assert(s[i].0 == k);
        } else if exists|i: int| 0 <= i < s.len() && (#[trigger] s[i]).0 == k {
            let i = choose|i: int| 0 <= i < s.len() && (#[trigger] s[i]).0 == k;
            assert(i < s.len() - 1);
            assert(d[i].0 == k);
        }
    }
}

/// With unique keys, the entry at index `i` gives the map's value at its key.
pub proof fn lemma_amap_get<K, V>(s: Seq<(K, V)>, i: int)
    requires
        keys_unique(s),
        0 <= i < s.len(),
    ensures
        amap(s).contains_key(s[i].0),
        amap(s)[s[i].0] == s[i].1,
    decreases s.len(),
{
    let d = s.drop_last();
    if i == s.len() - 1 {
    } else {
        assert(keys_unique(d));
        assert(d[i] == s[i]);
        lemma_amap_get(d, i);
        assert(s.last().0 != s[i].0);
    }
}

/// Appending an entry inserts its key.
pub proof fn lemma_amap_push<K, V>(s: Seq<(K, V)>, p: (K, V))
    ensures
        amap(s.push(p)) == amap(s).insert(p.0, p.1),
{
    assert(s.push(p).drop_last() =~= s);
    assert(s.push(p).last() == p);
}

/// With unique keys, removing the entry at index `i` removes its key.
pub proof fn lemma_amap_remove<K, V>(s: Seq<(K, V)>, i: int)
    requires
        keys_unique(s),
        0 <= i < s.len(),
    ensures
        amap(s.remove(i)) == amap(s).remove(s[i].0),
        keys_unique(s.remove(i)),
    decreases s.len(),
{
    let d = s.drop_last();
    assert(keys_unique(d));
    if i == s.len() - 1 {
        assert(s.remove(i) =~= d);
        lemma_amap_contains(d, s[i].0);
        assert(!amap(d).contains_key(s[i].0)) by {
            if exists|j: int| 0 <= j < d.len() && (#[trigger] d[j]).0 == s[i].0 {
                let j = choose|j: int| 0 <= j < d.len() && (#[trigger] d[j]).0 == s[i].0;
                assert(s[j].0 == s[i].0);
                assert(false);
            }
        }
        assert(amap(d).insert(s[i].0, s[i].1).remove(s[i].0) =~= amap(d));
    } else {
        lemma_amap_remove(d, i);
        assert(s.remove(i).drop_last() =~= d.remove(i));
        assert(s.remove(i).last() == s.last());
        assert(amap(s.remove(i)) == amap(d.remove(i)).insert(s.last().0, s.last().1));
        assert(s.last().0 != s[i].0);
        assert(d[i] == s[i]);
        assert(amap(d).remove(s[i].0).insert(s.last().0, s.last().1) =~= amap(d).insert(
            s.last().0,
            s.last().1,
        ).remove(s[i].0));
    }
}

/// Keys stay unique when an entry with a fresh key is appended.
pub proof fn lemma_unique_push<K, V>(s: Seq<(K, V)>, p: (K, V))
    requires
        keys_unique(s),
        !amap(s).contains_key(p.0),
    ensures
        keys_unique(s.push(p)),
{
    lemma_amap_contains(s, p.0);
    assert forall|i: int, j: int| 0 <= i < j < s.push(p).len() implies (#[trigger] s.push(p)[i]).0
        != (#[trigger] s.push(p)[j]).0 by {
        if j == s.len() {
            assert(s.push(p)[i] == s[i]);
        }
    }
}

} // verus!
