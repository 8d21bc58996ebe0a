//! Association sequences keyed by byte strings, and the map they denote.
use vstd::prelude::*;
use crate::bytes::{lemma_lex_irrefl, lemma_lex_trans, lex_lt};

verus! {

/// The map denoted by an association sequence: where a key occurs more than
/// once, its first occurrence wins.
pub open spec fn map_of<V>(m: Seq<(Seq<u8>, V)>) -> Map<Seq<u8>, V>
    decreases m.len(),
{
    if m.len() == 0 {
        Map::empty()
    } else {
        map_of(m.drop_first()).insert(m[0].0, m[0].1)
    }
}

/// Every key of the sequence occurs once.
pub open spec fn keys_distinct<V>(m: Seq<(Seq<u8>, V)>) -> bool {
    forall|i: int, j: int|
        0 <= i < m.len() && 0 <= j < m.len() && i != j ==> #[trigger] m[i].0 != #[trigger] m[j].0
}

/// A key that occurs nowhere in the sequence is not in its map.
pub proof fn lemma_map_of_not_in<V>(m: Seq<(Seq<u8>, V)>, k: Seq<u8>)
    requires
        forall|j: int| 0 <= j < m.len() ==> m[j].0 != k,
    ensures
        !map_of(m).contains_key(k),
    decreases m.len(),
{
    if m.len() > 0 {
        lemma_map_of_not_in(m.drop_first(), k);
    }
}

/// A key of the map occurs somewhere in the sequence.
pub proof fn lemma_map_of_in<V>(m: Seq<(Seq<u8>, V)>, k: Seq<u8>)
    requires
        map_of(m).contains_key(k),
    ensures
        exists|j: int| 0 <= j < m.len() && m[j].0 == k,
    decreases m.len(),
{
    if m.len() > 0 && m[0].0 != k {
        lemma_map_of_in(m.drop_first(), k);
        let j = choose|j: int| 0 <= j < m.len() - 1 && m.drop_first()[j].0 == k;
        assert(m[j + 1].0 == k);
    }
}

/// A key that occurs once maps to the value beside it.
pub proof fn lemma_map_of_at<V>(m: Seq<(Seq<u8>, V)>, p: int)
    requires
        0 <= p < m.len(),
        forall|j: int| 0 <= j < m.len() && j != p ==> m[j].0 != m[p].0,
    ensures
        map_of(m).contains_key(m[p].0),
        map_of(m)[m[p].0] == m[p].1,
    decreases m.len(),
{
    if p > 0 {
        let t = m.drop_first();
        assert forall|j: int| 0 <= j < t.len() && j != p - 1 implies #[trigger] t[j].0 != t[p - 1].0 by {
            assert(t[j] == m[j + 1]);
        }
        lemma_map_of_at(t, p - 1);
    }
}

/// Inserting an entry after no earlier occurrence of its key sets that key.
pub proof fn lemma_map_of_insert<V>(m: Seq<(Seq<u8>, V)>, p: int, e: (Seq<u8>, V))
    requires
        0 <= p <= m.len(),
        forall|j: int| 0 <= j < p ==> m[j].0 != e.0,
    ensures
        map_of(m.insert(p, e)) == map_of(m).insert(e.0, e.1),
    decreases m.len(),
{
    if p == 0 {
        assert(m.insert(0, e).drop_first() =~= m);
    } else {
        let t = m.drop_first();
        assert(m.insert(p, e).drop_first() =~= t.insert(p - 1, e));
        assert forall|j: int| 0 <= j < p - 1 implies t[j].0 != e.0 by {
            assert(t[j] == m[j + 1]);
        }
        lemma_map_of_insert(t, p - 1, e);
        assert(map_of(m.insert(p, e)) =~= map_of(m).insert(e.0, e.1));
    }
}

/// Replacing the value at the first occurrence of a key sets that key.
pub proof fn lemma_map_of_update<V>(m: Seq<(Seq<u8>, V)>, p: int, v: V)
    requires
        0 <= p < m.len(),
        forall|j: int| 0 <= j < p ==> m[j].0 != m[p].0,
    ensures
        map_of(m.update(p, (m[p].0, v))) == map_of(m).insert(m[p].0, v),
    decreases m.len(),
{
    let k = m[p].0;
    if p == 0 {
        assert(m.update(0, (k, v)).drop_first() =~= m.drop_first());
        assert(map_of(m.update(p, (k, v))) =~= map_of(m).insert(k, v));
    } else {
        let t = m.drop_first();
        assert(m.update(p, (k, v)).drop_first() =~= t.update(p - 1, (k, v)));
        assert forall|j: int| 0 <= j < p - 1 implies #[trigger] t[j].0 != t[p - 1].0 by {
            assert(t[j] == m[j + 1]);
        }
        lemma_map_of_update(t, p - 1, v);
        assert(map_of(m.update(p, (k, v))) =~= map_of(m).insert(k, v));
    }
}

/// Removing the only occurrence of a key removes it from the map.
pub proof fn lemma_map_of_remove<V>(m: Seq<(Seq<u8>, V)>, p: int)
    requires
        0 <= p < m.len(),
        forall|j: int| 0 <= j < m.len() && j != p ==> m[j].0 != m[p].0,
    ensures
        map_of(m.remove(p)) == map_of(m).remove(m[p].0),
    decreases m.len(),
{
    let k = m[p].0;
    if p == 0 {
        assert(m.remove(0) =~= m.drop_first());
        lemma_map_of_not_in(m.drop_first(), k);
        assert(map_of(m.remove(p)) =~= map_of(m).remove(k));
    } else {
        let t = m.drop_first();
        assert(m.remove(p).drop_first() =~= t.remove(p - 1));
        assert(m.remove(p)[0] == m[0]);
        assert forall|j: int| 0 <= j < t.len() && j != p - 1 implies #[trigger] t[j].0 != t[p - 1].0 by {
            assert(t[j] == m[j + 1]);
        }
        lemma_map_of_remove(t, p - 1);
        assert(map_of(m.remove(p)) =~= map_of(m).remove(k));
    }
}

/// Keys strictly increase in byte-lexicographic order.
pub open spec fn sorted<V>(m: Seq<(Seq<u8>, V)>) -> bool {
    forall|i: int, j: int| 0 <= i < j < m.len() ==> lex_lt(#[trigger] m[i].0, #[trigger] m[j].0)
}

/// Sorted keys are distinct.
pub proof fn lemma_sorted_distinct<V>(m: Seq<(Seq<u8>, V)>)
    requires
        sorted(m),
    ensures
        keys_distinct(m),
{
    assert forall|i: int, j: int|
        0 <= i < m.len() && 0 <= j < m.len() && i != j implies #[trigger] m[i].0
        != #[trigger] m[j].0 by {
        if i < j {
            lemma_lex_irrefl(m[i].0);
            assert(lex_lt(m[i].0, m[j].0));
        } else {
            lemma_lex_irrefl(m[j].0);
            assert(lex_lt(m[j].0, m[i].0));
        }
    }
}

/// A key that sorts after every key before `p` and before the key at `p`
/// occurs nowhere in a sorted sequence.
pub proof fn lemma_absent<V>(m: Seq<(Seq<u8>, V)>, p: int, key: Seq<u8>)
    requires
        sorted(m),
        0 <= p <= m.len(),
        forall|j: int| 0 <= j < p ==> lex_lt(#[trigger] m[j].0, key),
        p < m.len() ==> lex_lt(key, m[p].0),
    ensures
        forall|j: int| p <= j < m.len() ==> lex_lt(key, #[trigger] m[j].0),
        forall|j: int| 0 <= j < m.len() ==> #[trigger] m[j].0 != key,
{
    lemma_lex_irrefl(key);
    assert forall|j: int| p <= j < m.len() implies lex_lt(key, #[trigger] m[j].0) by {
        if j > p {
            lemma_lex_trans(key, m[p].0, m[j].0);
        }
    }
    assert forall|j: int| 0 <= j < m.len() implies #[trigger] m[j].0 != key by {
        if j < p {
            assert(lex_lt(m[j].0, key));
        } else {
            assert(lex_lt(key, m[j].0));
        }
    }
}

/// Inserting a key at its place keeps a sequence sorted.
pub proof fn lemma_sorted_insert<V>(m: Seq<(Seq<u8>, V)>, p: int, e: (Seq<u8>, V))
    requires
        sorted(m),
        0 <= p <= m.len(),
        forall|j: int| 0 <= j < p ==> lex_lt(#[trigger] m[j].0, e.0),
        p < m.len() ==> lex_lt(e.0, m[p].0),
    ensures
        sorted(m.insert(p, e)),
{
    lemma_absent(m, p, e.0);
    let n = m.insert(p, e);
    assert forall|i: int, j: int| 0 <= i < j < n.len() implies lex_lt(
        #[trigger] n[i].0,
        #[trigger] n[j].0,
    ) by {
        if j < p {
        } else if j == p {
        } else if i < p {
            lemma_lex_trans(m[i].0, e.0, m[j - 1].0);
        } else if i == p {
        } else {
            assert(lex_lt(m[i - 1].0, m[j - 1].0));
        }
    }
}

/// Removing an entry keeps a sequence sorted.
pub proof fn lemma_sorted_remove<V>(m: Seq<(Seq<u8>, V)>, p: int)
    requires
        sorted(m),
        0 <= p < m.len(),
    ensures
        sorted(m.remove(p)),
{
    let n = m.remove(p);
    assert forall|i: int, j: int| 0 <= i < j < n.len() implies lex_lt(
        #[trigger] n[i].0,
        #[trigger] n[j].0,
    ) by {
        let i0 = if i < p { i } else { i + 1 };
        let j0 = if j < p { j } else { j + 1 };
        assert(n[i] == m[i0] && n[j] == m[j0]);
        assert(lex_lt(m[i0].0, m[j0].0));
    }
}

} // verus!
