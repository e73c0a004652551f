use vstd::prelude::*;

use crate::chain::Chain;
use crate::model::{
    links_of, merged, merged_links, next_at, padded, record, trained, walk_ok, weight, window_at,
    window_of, NodeModel, TableModel,
};
use crate::store::{table_model, table_valid, Link, Node};
use crate::token::Chainable;

verus! {

/// A transition recorded from an empty table was observed: its weight is
/// positive only at a window and next value that occur at some position of
/// the padded sequence, and every node is a window at some position.
proof fn lemma_record_observed<V>(order: nat, p: Seq<Option<V>>, k: nat)
    ensures
        forall|n: NodeModel<V>, x: Option<V>|
            #[trigger] weight(record(TableModel::<V>::empty(), order, p, k), n, x) > 0 ==> exists|i: int|
                0 <= i < k && window_at(p, order, i) == n && next_at(p, i) == x,
        forall|n: NodeModel<V>|
            #[trigger] record(TableModel::<V>::empty(), order, p, k).contains_key(n) ==> exists|i: int|
                0 <= i < k && window_at(p, order, i) == n,
    decreases k,
{
    let e = TableModel::<V>::empty();
    if k > 0 {
        let i0 = k - 1;
        lemma_record_observed(order, p, i0 as nat);
        let m = record(e, order, p, i0 as nat);
        let w = window_at(p, order, i0);
        let y = next_at(p, i0);
        assert forall|n: NodeModel<V>, x: Option<V>|
            #[trigger] weight(record(e, order, p, k), n, x) > 0 implies exists|i: int|
                0 <= i < k && window_at(p, order, i) == n && next_at(p, i) == x by {
            if n == w && x == y {
                assert(window_at(p, order, i0) == n && next_at(p, i0) == x);
            } else {
                assert(weight(m, n, x) > 0);
                let i = choose|i: int| 0 <= i < i0 && window_at(p, order, i) == n && next_at(p, i) == x;
                assert(0 <= i < k);
            }
        }
        assert forall|n: NodeModel<V>|
            #[trigger] record(e, order, p, k).contains_key(n) implies exists|i: int|
                0 <= i < k && window_at(p, order, i) == n by {
            if n == w {
                assert(window_at(p, order, i0) == n);
            } else {
                assert(m.contains_key(n));
                let i = choose|i: int| 0 <= i < i0 && window_at(p, order, i) == n;
                assert(0 <= i < k);
            }
        }
    }
}

/// Generation from a chain freshly trained on one sequence follows only
/// what training observed: the walk starts at a window that training saw,
/// and every token drawn after the start follows its window in a transition
/// that training recorded. No generated transition has zero weight.
pub proof fn lemma_generated_transitions_observed<V>(
    order: nat,
    s: Seq<V>,
    start: NodeModel<V>,
    max: int,
    out: Seq<V>,
)
    requires
        order >= 1,
        s.len() > 0,
        trained(TableModel::<V>::empty(), order, s).contains_key(start),
        walk_ok(trained(TableModel::<V>::empty(), order, s), order, start, max, out),
    ensures
        exists|i: int| 0 <= i <= padded(s, order).len() && window_at(padded(s, order), order, i) == start,
        !start.contains(None) ==> forall|j: int|
            order <= j < out.len() ==> exists|i: int|
                0 <= i <= padded(s, order).len() && window_at(padded(s, order), order, i)
                    == #[trigger] window_of(out, order, j) && next_at(padded(s, order), i) == Some(out[j]),
        !start.contains(None) ==> forall|j: int|
            order <= j < out.len() ==> weight(
                trained(TableModel::<V>::empty(), order, s),
                window_of(out, order, j),
                Some(out[j]),
            ) > 0,
{
    let p = padded(s, order);
    lemma_record_observed(order, p, p.len() + 1);
    let m = trained(TableModel::<V>::empty(), order, s);
    assert(m == record(TableModel::<V>::empty(), order, p, p.len() + 1));
    if !start.contains(None) {
        assert forall|j: int| order <= j < out.len() implies exists|i: int|
            0 <= i <= p.len() && window_at(p, order, i) == #[trigger] window_of(out, order, j) && next_at(p, i)
                == Some(out[j]) by {
            assert(weight(m, window_of(out, order, j), Some(out[j])) > 0);
        }
    }
}

/// Merging is associative in the weights: merging `a` with `b` and then `c`
/// gives the same table as merging `a` with the merge of `b` and `c`.
pub proof fn lemma_merge_associative<V>(a: TableModel<V>, b: TableModel<V>, c: TableModel<V>)
    ensures
        merged(merged(a, b), c) == merged(a, merged(b, c)),
{
    let lhs = merged(merged(a, b), c);
    let rhs = merged(a, merged(b, c));
    assert(lhs.dom() =~= rhs.dom());
    assert forall|n: NodeModel<V>| #[trigger] lhs.contains_key(n) implies lhs[n] == rhs[n] by {
        assert(links_of(merged(a, b), n) =~= merged_links(links_of(a, n), links_of(b, n)));
        assert(links_of(merged(b, c), n) =~= merged_links(links_of(b, n), links_of(c, n)));
        assert(lhs[n] =~= rhs[n]);
    }
    assert(lhs =~= rhs);
}

/// Merging is commutative in the weights.
pub proof fn lemma_merge_commutative<V>(a: TableModel<V>, b: TableModel<V>)
    ensures
        merged(a, b) == merged(b, a),
{
    let lhs = merged(a, b);
    let rhs = merged(b, a);
    assert(lhs.dom() =~= rhs.dom());
    assert forall|n: NodeModel<V>| #[trigger] lhs.contains_key(n) implies lhs[n] == rhs[n] by {
        assert(lhs[n] =~= rhs[n]);
    }
    assert(lhs =~= rhs);
}

/// The table that `chain` hands out rebuilds the same chain: it is valid
/// for the chain's order, so `from_table` accepts it, and it stands for the
/// chain's transitions.
pub proof fn lemma_table_round_trip<T: Chainable>(c: &Chain<T>, t: Seq<(Node<T>, Link<T>)>)
    requires
        c.wf(),
        t == c.raw(),
    ensures
        table_valid(c.spec_order() as usize, t),
        table_model(t) == c@,
{
    c.lemma_wf();
}

} // verus!
