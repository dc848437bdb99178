//! Association lists: a `Seq` of key/value pairs read as a finite map, the
//! later entry winning. The registries of this crate keep their tables this
//! way and keep the keys unique.
use vstd::prelude::*;

verus! {

/// The map that an association list denotes.
pub open spec fn assoc<K, V>(s: Seq<(K, V)>) -> Map<K, V>
    decreases s.len(),
{
    if s.len() == 0 {
        Map::empty()
    } else {
        assoc(s.drop_last()).insert(s.last().0, s.last().1)
    }
}

/// No key occurs twice.
pub open spec fn keys_unique<K, V>(s: Seq<(K, V)>) -> bool {
    forall|i: int, j: int| 0 <= i < j < s.len() ==> s[i].0 != s[j].0
}

pub proof fn lemma_assoc_push<K, V>(s: Seq<(K, V)>, e: (K, V))
    ensures
        assoc(s.push(e)) == assoc(s).insert(e.0, e.1),
{
    assert(s.push(e).drop_last() =~= s);
}

pub proof fn lemma_assoc_lookup<K, V>(s: Seq<(K, V)>, i: int)
    requires
        keys_unique(s),
        0 <= i < s.len(),
    ensures
        assoc(s).contains_key(s[i].0),
        assoc(s)[s[i].0] == s[i].1,
    decreases s.len(),
{
    if i < s.len() - 1 {
        let t = s.drop_last();
        assert(keys_unique(t));
        assert(t[i] == s[i]);
        lemma_assoc_lookup(t, i);
        assert(s.last().0 != s[i].0);
    }
}

pub proof fn lemma_assoc_absent<K, V>(s: Seq<(K, V)>, k: K)
    requires
        forall|i: int| 0 <= i < s.len() ==> s[i].0 != k,
    ensures
        !assoc(s).contains_key(k),
    decreases s.len(),
{
    if s.len() > 0 {
        let t = s.drop_last();
        assert forall|i: int| 0 <= i < t.len() implies t[i].0 != k by {
            assert(t[i] == s[i]);
        }
        lemma_assoc_absent(t, k);
    }
}

/// Every key of the map is the key of some entry.
pub proof fn lemma_assoc_key_has_entry<K, V>(s: Seq<(K, V)>, k: K)
    requires
        assoc(s).contains_key(k),
    ensures
        exists|i: int| 0 <= i < s.len() && s[i].0 == k && s[i].1 == assoc(s)[k],
    decreases s.len(),
{
    let t = s.drop_last();
    if s.last().0 == k {
        assert(s[s.len() - 1].0 == k);
    } else {
        lemma_assoc_key_has_entry(t, k);
        let i = choose|i: int| 0 <= i < t.len() && t[i].0 == k && t[i].1 == assoc(t)[k];
        assert(s[i] == t[i]);
    }
}

} // verus!
