use vstd::prelude::*;

verus! {

/// The map described by a list of key/value pairs; a later pair takes
/// precedence over an earlier one with the same key.
pub open spec fn pairs_to_map<A, B>(s: Seq<(A, B)>) -> Map<A, B>
    decreases s.len(),
{
    if s.len() == 0 {
        Map::empty()
    } else {
        pairs_to_map(s.drop_last()).insert(s.last().0, s.last().1)
    }
}

/// No key occurs twice in the list.
pub open spec fn keys_unique<A, B>(s: Seq<(A, B)>) -> bool {
    forall|i: int, j: int|
        0 <= i < s.len() && 0 <= j < s.len() && i != j ==> #[trigger] s[i].0 != #[trigger] s[j].0
}

/// The sum of the values in a list of pairs.
pub open spec fn sum_values<A>(s: Seq<(A, nat)>) -> nat
    decreases s.len(),
{
    if s.len() == 0 {
        0
    } else {
        sum_values(s.drop_last()) + s.last().1
    }
}

/// The sum of the values of a finite map.
pub open spec fn map_sum<A>(m: Map<A, nat>) -> nat
    decreases m.dom().len(),
{
    if !m.dom().finite() || m.dom().len() == 0 {
        0
    } else {
        let k = m.dom().choose();
        m[k] + map_sum(m.remove(k))
    }
}

/// The map of a list is finite and has exactly the keys of the list.
pub proof fn lemma_pairs_to_map_dom<A, B>(s: Seq<(A, B)>)
    ensures
        pairs_to_map(s).dom().finite(),
        forall|k: A|
            #[trigger] pairs_to_map(s).contains_key(k) <==> exists|i: int|
                0 <= i < s.len() && s[i].0 == k,
    decreases s.len(),
{
    if s.len() > 0 {
        lemma_pairs_to_map_dom(s.drop_last());
        assert forall|k: A| #[trigger] pairs_to_map(s).contains_key(k) implies exists|i: int|
            0 <= i < s.len() && s[i].0 == k by {
            if k != s.last().0 {
                let i = choose|i: int| 0 <= i < s.drop_last().len() && s.drop_last()[i].0 == k;
                assert(s[i].0 == k);
            } else {
                assert(s[s.len() - 1].0 == k);
            }
        }
        assert forall|k: A|
            (exists|i: int| 0 <= i < s.len() && s[i].0 == k) implies #[trigger] pairs_to_map(
            s,
        ).contains_key(k) by {
            let i = choose|i: int| 0 <= i < s.len() && s[i].0 == k;
            if i < s.len() - 1 {
                assert(s.drop_last()[i].0 == k);
            }
        }
    }
}

/// With unique keys, the map of a list gives each key the value paired
/// with it in the list.
pub proof fn lemma_pairs_to_map_index<A, B>(s: Seq<(A, B)>, i: int)
    requires
        keys_unique(s),
        0 <= i < s.len(),
    ensures
        pairs_to_map(s).contains_key(s[i].0),
        pairs_to_map(s)[s[i].0] == s[i].1,
    decreases s.len(),
{
    if i < s.len() - 1 {
        assert(s[i].0 != s[s.len() - 1].0);
        assert(s.drop_last()[i] == s[i]);
        lemma_pairs_to_map_index(s.drop_last(), i);
    }
}

/// Replacing the value of one pair of a list with unique keys replaces
/// that key's value in its map.
pub proof fn lemma_pairs_to_map_update<A, B>(s: Seq<(A, B)>, i: int, b: B)
    requires
        keys_unique(s),
        0 <= i < s.len(),
    ensures
        keys_unique(s.update(i, (s[i].0, b))),
        pairs_to_map(s.update(i, (s[i].0, b))) == pairs_to_map(s).insert(s[i].0, b),
    decreases s.len(),
{
    let t = s.update(i, (s[i].0, b));
    assert forall|x: int, y: int|
        0 <= x < t.len() && 0 <= y < t.len() && x != y implies #[trigger] t[x].0 != #[trigger] t[y].0 by {
        assert(s[x].0 != s[y].0);
    }
    if i == s.len() - 1 {
        assert(t.drop_last() =~= s.drop_last());
        assert(pairs_to_map(t) =~= pairs_to_map(s).insert(s[i].0, b));
    } else {
        let d = s.drop_last();
        assert(t.drop_last() =~= d.update(i, (d[i].0, b)));
        lemma_pairs_to_map_update(d, i, b);
        assert(s[i].0 != s[s.len() - 1].0);
        assert(pairs_to_map(t) =~= pairs_to_map(s).insert(s[i].0, b));
    }
}

/// The sum of a finite map is the value of any of its keys plus the sum
/// of the rest.
pub proof fn lemma_map_sum_remove<A>(m: Map<A, nat>, k: A)
    requires
        m.dom().finite(),
        m.contains_key(k),
    ensures
        map_sum(m) == m[k] + map_sum(m.remove(k)),
    decreases m.dom().len(),
{
    let c = m.dom().choose();
    assert(m.dom().contains(c));
    if c != k {
        lemma_map_sum_remove(m.remove(c), k);
        lemma_map_sum_remove(m.remove(k), c);
        assert(m.remove(c).remove(k) =~= m.remove(k).remove(c));
    }
}

/// Inserting a value changes the sum of a finite map by the difference
/// with the value it replaces, if any.
pub proof fn lemma_map_sum_insert<A>(m: Map<A, nat>, k: A, v: nat)
    requires
        m.dom().finite(),
    ensures
        m.contains_key(k) ==> map_sum(m.insert(k, v)) + m[k] == map_sum(m) + v,
        !m.contains_key(k) ==> map_sum(m.insert(k, v)) == map_sum(m) + v,
{
    lemma_map_sum_remove(m.insert(k, v), k);
    if m.contains_key(k) {
        lemma_map_sum_remove(m, k);
        assert(m.insert(k, v).remove(k) =~= m.remove(k));
    } else {
        assert(m.insert(k, v).remove(k) =~= m);
    }
}

/// With unique keys, the map of a list sums to the sum of the list's
/// values.
pub proof fn lemma_map_sum_pairs<A>(s: Seq<(A, nat)>)
    requires
        keys_unique(s),
    ensures
        map_sum(pairs_to_map(s)) == sum_values(s),
    decreases s.len(),
{
    if s.len() > 0 {
        let d = s.drop_last();
        assert forall|x: int, y: int|
            0 <= x < d.len() && 0 <= y < d.len() && x != y implies #[trigger] d[x].0
            != #[trigger] d[y].0 by {
            assert(s[x].0 != s[y].0);
        }
        lemma_map_sum_pairs(d);
        lemma_pairs_to_map_dom(d);
        if pairs_to_map(d).contains_key(s.last().0) {
            let i = choose|i: int| 0 <= i < d.len() && d[i].0 == s.last().0;
            assert(s[i].0 == s[s.len() - 1].0);
        }
        lemma_map_sum_insert(pairs_to_map(d), s.last().0, s.last().1);
    }
}

/// A map whose keys all occur in `m2` with values at least as large sums to
/// at most the sum of `m2`.
pub proof fn lemma_map_sum_le<A>(m1: Map<A, nat>, m2: Map<A, nat>)
    requires
        m2.dom().finite(),
        forall|k: A| #[trigger] m1.contains_key(k) ==> m2.contains_key(k) && m1[k] <= m2[k],
    ensures
        map_sum(m1) <= map_sum(m2),
    decreases m2.dom().len(),
{
    assert(m1.dom().subset_of(m2.dom()));
    vstd::set_lib::lemma_len_subset(m1.dom(), m2.dom());
    if m2.dom().len() > 0 {
        let k = m2.dom().choose();
        assert(m2.dom().contains(k));
        lemma_map_sum_remove(m2, k);
        if m1.contains_key(k) {
            lemma_map_sum_remove(m1, k);
            lemma_map_sum_le(m1.remove(k), m2.remove(k));
        } else {
            lemma_map_sum_le(m1, m2.remove(k));
        }
    } else {
        assert(m1.dom().len() == 0);
    }
}

/// The map of a prefix of a list with unique keys agrees with the map of
/// the whole list.
pub proof fn lemma_pairs_to_map_prefix<A, B>(s: Seq<(A, B)>, k: int)
    requires
        keys_unique(s),
        0 <= k <= s.len(),
    ensures
        keys_unique(s.take(k)),
        forall|a: A| #[trigger] pairs_to_map(s.take(k)).contains_key(a) ==> pairs_to_map(s).contains_key(a)
            && pairs_to_map(s.take(k))[a] == pairs_to_map(s)[a],
{
    let t = s.take(k);
    assert forall|x: int, y: int| 0 <= x < t.len() && 0 <= y < t.len() && x != y implies #[trigger] t[x].0
        != #[trigger] t[y].0 by {
        assert(s[x].0 != s[y].0);
    }
    lemma_pairs_to_map_dom(t);
    assert forall|a: A| #[trigger] pairs_to_map(t).contains_key(a) implies pairs_to_map(s).contains_key(a)
        && pairs_to_map(t)[a] == pairs_to_map(s)[a] by {
        let q = choose|q: int| 0 <= q < t.len() && t[q].0 == a;
        lemma_pairs_to_map_index(t, q);
        lemma_pairs_to_map_index(s, q);
    }
}

/// The values of a prefix sum to no more than the values of the whole list.
pub proof fn lemma_sum_values_prefix<A>(s: Seq<(A, nat)>, k: int)
    requires
        0 <= k <= s.len(),
    ensures
        sum_values(s.take(k)) <= sum_values(s),
    decreases s.len(),
{
    if k < s.len() {
        lemma_sum_values_prefix(s.drop_last(), k);
        assert(s.drop_last().take(k) =~= s.take(k));
    } else {
        assert(s.take(k) =~= s);
    }
}

/// A list with unique keys describes a map with one key per pair.
pub proof fn lemma_pairs_to_map_len<A, B>(s: Seq<(A, B)>)
    requires
        keys_unique(s),
    ensures
        pairs_to_map(s).dom().len() == s.len(),
    decreases s.len(),
{
    if s.len() > 0 {
        let d = s.drop_last();
        assert forall|x: int, y: int|
            0 <= x < d.len() && 0 <= y < d.len() && x != y implies #[trigger] d[x].0
            != #[trigger] d[y].0 by {
            assert(s[x].0 != s[y].0);
        }
        lemma_pairs_to_map_len(d);
        lemma_pairs_to_map_dom(d);
        if pairs_to_map(d).contains_key(s.last().0) {
            let i = choose|i: int| 0 <= i < d.len() && d[i].0 == s.last().0;
            assert(s[i].0 == s[s.len() - 1].0);
        }
    }
}

} // verus!
