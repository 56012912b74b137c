//! Counts keyed by anything: their saturating sum, and association lists
//! with unique keys that hold them.

use vstd::prelude::*;

verus! {

/// A count, saturated at `u64::MAX`.
pub open spec fn sat(n: nat) -> nat {
    if n > u64::MAX {
        u64::MAX as nat
    } else {
        n
    }
}

/// The count of `k` in `m`, zero where it has none.
pub open spec fn count_in<K>(m: Map<K, nat>, k: K) -> nat {
    if m.contains_key(k) {
        m[k]
    } else {
        0
    }
}

/// The counts of both, added key by key (saturating).
pub open spec fn add_counts<K>(a: Map<K, nat>, b: Map<K, nat>) -> Map<K, nat> {
    Map::new(|k: K| a.contains_key(k) || b.contains_key(k), |k: K| sat((count_in(a, k) + count_in(b, k)) as nat))
}

/// Every count fits in a `u64`.
pub open spec fn bounded<K>(m: Map<K, nat>) -> bool {
    forall|k: K| #[trigger] m.contains_key(k) ==> m[k] <= u64::MAX
}

pub proof fn lemma_add_counts_commutes<K>(a: Map<K, nat>, b: Map<K, nat>)
    ensures
        add_counts(a, b) == add_counts(b, a),
{
    assert(add_counts(a, b) =~= add_counts(b, a));
}

pub proof fn lemma_add_counts_associates<K>(a: Map<K, nat>, b: Map<K, nat>, c: Map<K, nat>)
    ensures
        add_counts(add_counts(a, b), c) == add_counts(a, add_counts(b, c)),
{
    assert(add_counts(add_counts(a, b), c) =~= add_counts(a, add_counts(b, c)));
}

/// The map that an association list describes.
pub open spec fn entries_map<K, V>(s: Seq<(K, V)>) -> Map<K, V>
    decreases s.len(),
{
    if s.len() == 0 {
        Map::empty()
    } else {
        entries_map(s.drop_last()).insert(s.last().0, s.last().1)
    }
}

/// No key occurs twice.
pub open spec fn unique_keys<K, V>(s: Seq<(K, V)>) -> bool {
    forall|i: int, j: int| 0 <= i < j < s.len() ==> s[i].0 != s[j].0
}

pub proof fn lemma_entries_map_has<K, V>(s: Seq<(K, V)>, i: int)
    requires
        unique_keys(s),
        0 <= i < s.len(),
    ensures
        entries_map(s).contains_key(s[i].0),
        entries_map(s)[s[i].0] == s[i].1,
    decreases s.len(),
{
    if i < s.len() - 1 {
        let t = s.drop_last();
        assert(t[i] == s[i]);
        lemma_entries_map_has(t, i);
        assert(s.last().0 != s[i].0);
    }
}

pub proof fn lemma_entries_map_lacks<K, V>(s: Seq<(K, V)>, k: K)
    requires
        forall|i: int| 0 <= i < s.len() ==> (#[trigger] s[i]).0 != k,
    ensures
        !entries_map(s).contains_key(k),
    decreases s.len(),
{
    if s.len() > 0 {
        let t = s.drop_last();
        assert forall|i: int| 0 <= i < t.len() implies (#[trigger] t[i]).0 != k by {
            assert(t[i] == s[i]);
        }
        lemma_entries_map_lacks(t, k);
        assert(s.last() == s[s.len() - 1]);
    }
}

pub proof fn lemma_entries_map_keys<K, V>(s: Seq<(K, V)>, k: K)
    requires
        entries_map(s).contains_key(k),
    ensures
        exists|i: int| 0 <= i < s.len() && (#[trigger] s[i]).0 == k,
{
    if forall|i: int| 0 <= i < s.len() ==> (#[trigger] s[i]).0 != k {
        lemma_entries_map_lacks(s, k);
    }
}

pub proof fn lemma_entries_map_update<K, V>(s: Seq<(K, V)>, i: int, v: V)
    requires
        unique_keys(s),
        0 <= i < s.len(),
    ensures
        entries_map(s.update(i, (s[i].0, v))) == entries_map(s).insert(s[i].0, v),
    decreases s.len(),
{
    let u = s.update(i, (s[i].0, v));
    if i == s.len() - 1 {
        assert(u.drop_last() =~= s.drop_last());
        assert(entries_map(u) =~= entries_map(s).insert(s[i].0, v));
    } else {
        let t = s.drop_last();
        assert(u.drop_last() =~= t.update(i, (s[i].0, v)));
        assert(t[i] == s[i]);
        lemma_entries_map_update(t, i, v);
        assert(s.last().0 != s[i].0);
        assert(entries_map(u) =~= entries_map(s).insert(s[i].0, v));
    }
}

pub proof fn lemma_entries_map_bounded<K>(s: Seq<(K, nat)>)
    requires
        forall|i: int| 0 <= i < s.len() ==> (#[trigger] s[i]).1 <= u64::MAX,
    ensures
        bounded(entries_map(s)),
    decreases s.len(),
{
    if s.len() > 0 {
        let t = s.drop_last();
        assert forall|i: int| 0 <= i < t.len() implies (#[trigger] t[i]).1 <= u64::MAX by {
            assert(t[i] == s[i]);
        }
        lemma_entries_map_bounded(t);
        assert(s.last() == s[s.len() - 1]);
    }
}

pub proof fn lemma_add_counts_insert<K>(a: Map<K, nat>, b: Map<K, nat>, k: K, v: nat)
    requires
        !b.contains_key(k),
        bounded(a),
    ensures
        add_counts(a, b.insert(k, v)) == add_counts(a, b).insert(k, sat((count_in(add_counts(a, b), k) + v) as nat)),
{
    assert(add_counts(a, b.insert(k, v)) =~= add_counts(a, b).insert(k, sat((count_in(add_counts(a, b), k) + v) as nat)));
}

pub proof fn lemma_add_counts_empty<K>(b: Map<K, nat>)
    requires
        bounded(b),
    ensures
        add_counts(Map::empty(), b) == b,
{
    assert(add_counts(Map::empty(), b) =~= b);
}

} // verus!
