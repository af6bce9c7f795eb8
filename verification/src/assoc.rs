//! Association sequences: the lookup function the catalog's maps are
//! specified with, and the lemmas that push and in-place update obey.

use vstd::prelude::*;

verus! {

/// First-match lookup in a sequence of key-value pairs.
pub open spec fn alookup<K, V>(m: Seq<(K, V)>, k: K) -> Option<V>
    decreases m.len(),
{
    if m.len() == 0 {
        None
    } else if m[0].0 == k {
        Some(m[0].1)
    } else {
        alookup(m.drop_first(), k)
    }
}

/// No two entries share a key.
pub open spec fn unique_keys<K, V>(m: Seq<(K, V)>) -> bool {
    forall|i: int, j: int| 0 <= i < j < m.len() ==> m[i].0 != m[j].0
}

/// Lookup misses exactly when no entry carries the key.
pub proof fn lemma_alookup_none_iff<K, V>(m: Seq<(K, V)>, k: K)
    ensures
        (alookup(m, k) is None) <==> (forall|j: int| 0 <= j < m.len() ==> m[j].0 != k),
    decreases m.len(),
{
    if m.len() > 0 {
        lemma_alookup_none_iff(m.drop_first(), k);
        if m[0].0 != k {
            if alookup(m, k) is None {
                assert forall|j: int| 0 <= j < m.len() implies m[j].0 != k by {
                    if j > 0 {
                        assert(m.drop_first()[j - 1] == m[j]);
                    }
                }
            } else {
                let j = choose|j: int|
                    0 <= j < m.drop_first().len() && m.drop_first()[j].0 == k;
                assert(m[j + 1].0 == k);
            }
        }
    }
}

/// Lookup returns the value of the first entry carrying the key.
pub proof fn lemma_alookup_found<K, V>(m: Seq<(K, V)>, k: K, i: int)
    requires
        0 <= i < m.len(),
        m[i].0 == k,
        forall|j: int| 0 <= j < i ==> m[j].0 != k,
    ensures
        alookup(m, k) == Some(m[i].1),
    decreases i,
{
    if i > 0 {
        lemma_alookup_found(m.drop_first(), k, i - 1);
    }
}

/// Replacing the entry of one key leaves lookups of other keys alone.
pub proof fn lemma_alookup_update_other<K, V>(m: Seq<(K, V)>, i: int, e: (K, V), k2: K)
    requires
        0 <= i < m.len(),
        e.0 != k2,
        m[i].0 != k2,
    ensures
        alookup(m.update(i, e), k2) == alookup(m, k2),
    decreases i,
{
    let m2 = m.update(i, e);
    if i == 0 {
        assert(m2.drop_first() =~= m.drop_first());
    } else {
        if m[0].0 != k2 {
            assert(m2.drop_first() =~= m.drop_first().update(i - 1, e));
            lemma_alookup_update_other(m.drop_first(), i - 1, e, k2);
        }
    }
}

/// Appending an entry of one key leaves lookups of other keys alone.
pub proof fn lemma_alookup_push_other<K, V>(m: Seq<(K, V)>, e: (K, V), k2: K)
    requires
        e.0 != k2,
    ensures
        alookup(m.push(e), k2) == alookup(m, k2),
    decreases m.len(),
{
    let m2 = m.push(e);
    assert(m2.len() == m.len() + 1);
    if m.len() == 0 {
        assert(m2[0] == e);
        assert(m2.drop_first() =~= Seq::<(K, V)>::empty());
        assert(alookup(m2, k2) is None);
        assert(alookup(m, k2) is None);
    } else {
        assert(m2[0] == m[0]);
        if m[0].0 == k2 {
            assert(alookup(m2, k2) == Some(m2[0].1));
            assert(alookup(m, k2) == Some(m[0].1));
        } else {
            assert(m2.drop_first() =~= m.drop_first().push(e));
            lemma_alookup_push_other(m.drop_first(), e, k2);
            assert(alookup(m2, k2) == alookup(m2.drop_first(), k2));
            assert(alookup(m, k2) == alookup(m.drop_first(), k2));
        }
    }
}

} // verus!
