use vstd::prelude::*;

use crate::assoc::{lemma_map_sum_insert, lemma_map_sum_le, lemma_map_sum_remove, map_sum};

verus! {

/// A node: `order` slots, each holding a token or the boundary marker (`None`).
pub type NodeModel<V> = Seq<Option<V>>;

/// A link table: the weight observed for each possible next value.
pub type LinkModel<V> = Map<Option<V>, nat>;

/// A transition table: the link table of each node.
pub type TableModel<V> = Map<Seq<Option<V>>, Map<Option<V>, nat>>;

/// The link table of `node`, empty when the node is absent.
pub open spec fn links_of<V>(m: TableModel<V>, node: NodeModel<V>) -> LinkModel<V> {
    if m.contains_key(node) {
        m[node]
    } else {
        Map::empty()
    }
}

/// The weight in a link table of `next`, zero when absent.
pub open spec fn link_weight<V>(l: LinkModel<V>, next: Option<V>) -> nat {
    if l.contains_key(next) {
        l[next]
    } else {
        0
    }
}

/// The accumulated weight of the transition from `node` to `next`.
pub open spec fn weight<V>(m: TableModel<V>, node: NodeModel<V>, next: Option<V>) -> nat {
    link_weight(links_of(m, node), next)
}

/// `m` with `w` added to the weight of the transition from `node` to `next`,
/// which is created when absent.
pub open spec fn add_weight<V>(m: TableModel<V>, node: NodeModel<V>, next: Option<V>, w: nat) -> TableModel<V> {
    m.insert(node, links_of(m, node).insert(next, weight(m, node, next) + w))
}

/// The sequence `s` as slots, padded on the right with boundary markers up
/// to length `order`.
pub open spec fn padded<V>(s: Seq<V>, order: nat) -> Seq<Option<V>> {
    let slots = s.map_values(|t: V| Some(t));
    if s.len() < order {
        slots + Seq::new((order - s.len()) as nat, |i: int| None)
    } else {
        slots
    }
}

/// The window of `order` slots that precedes position `i` of `p`; positions
/// before the start hold the boundary marker.
pub open spec fn window_at<V>(p: Seq<Option<V>>, order: nat, i: int) -> NodeModel<V> {
    Seq::new(order, |j: int| if i - order + j >= 0 { p[i - order + j] } else { None })
}

/// The value at position `i` of `p`, the boundary marker past the end.
pub open spec fn next_at<V>(p: Seq<Option<V>>, i: int) -> Option<V> {
    if i < p.len() {
        p[i]
    } else {
        None
    }
}

/// `m` after recording the first `k` transitions of the padded sequence `p`:
/// transition `i` goes from `window_at(p, order, i)` to `next_at(p, i)`.
pub open spec fn record<V>(m: TableModel<V>, order: nat, p: Seq<Option<V>>, k: nat) -> TableModel<V>
    decreases k,
{
    if k == 0 {
        m
    } else {
        let i = k - 1;
        add_weight(record(m, order, p, i as nat), window_at(p, order, i), next_at(p, i), 1)
    }
}

/// `m` after training on the sequence `s`: an empty sequence changes nothing;
/// otherwise each of the `len + 1` transitions of the padded sequence, from
/// the all-boundary window to the final boundary, adds one to its weight.
pub open spec fn trained<V>(m: TableModel<V>, order: nat, s: Seq<V>) -> TableModel<V> {
    if s.len() == 0 {
        m
    } else {
        let p = padded(s, order);
        record(m, order, p, p.len() + 1)
    }
}

/// `m` after training on each sequence of `units` in turn.
pub open spec fn trained_all<V>(m: TableModel<V>, order: nat, units: Seq<Seq<V>>) -> TableModel<V>
    decreases units.len(),
{
    if units.len() == 0 {
        m
    } else {
        trained(trained_all(m, order, units.drop_last()), order, units.last())
    }
}

/// Two link tables summed key by key.
pub open spec fn merged_links<V>(a: LinkModel<V>, b: LinkModel<V>) -> LinkModel<V> {
    a.dom().union(b.dom()).mk_map(|x: Option<V>| link_weight(a, x) + link_weight(b, x))
}

/// Two transition tables summed transition by transition.
pub open spec fn merged<V>(a: TableModel<V>, b: TableModel<V>) -> TableModel<V> {
    a.dom().union(b.dom()).mk_map(|n: NodeModel<V>| merged_links(links_of(a, n), links_of(b, n)))
}

/// Every link table's weights sum to at most `u32::MAX`, the most that the
/// weighted sampler accepts.
pub open spec fn totals_fit<V>(m: TableModel<V>) -> bool {
    forall|n: NodeModel<V>| #[trigger] m.contains_key(n) ==> map_sum(m[n]) <= u32::MAX
}

/// The shape of every table that a chain of order `order` can hold: finite,
/// every node of length `order` with a non-empty link table of positive
/// weights, and every total within what the sampler accepts.
pub open spec fn table_wf<V>(m: TableModel<V>, order: nat) -> bool {
    &&& m.dom().finite()
    &&& forall|n: NodeModel<V>| #[trigger] m.contains_key(n) ==> {
        &&& n.len() == order
        &&& m[n].dom().finite()
        &&& m[n].dom().len() > 0
        &&& forall|x: Option<V>| #[trigger] m[n].contains_key(x) ==> m[n][x] >= 1
    }
    &&& totals_fit(m)
}

/// Every link table of `m` is finite.
pub open spec fn links_finite<V>(m: TableModel<V>) -> bool {
    forall|n: NodeModel<V>| #[trigger] m.contains_key(n) ==> m[n].dom().finite()
}

/// The total weight of the link table of `node`.
pub open spec fn node_total<V>(m: TableModel<V>, node: NodeModel<V>) -> nat {
    map_sum(links_of(m, node))
}

/// A well-formed table has finite link tables.
pub proof fn lemma_table_wf_links_finite<V>(m: TableModel<V>, order: nat)
    requires
        table_wf(m, order),
    ensures
        links_finite(m),
{
}

/// Adding `w` to one transition adds `w` to the total of its node and leaves
/// the other totals alone.
pub proof fn lemma_add_weight_total<V>(m: TableModel<V>, node: NodeModel<V>, next: Option<V>, w: nat)
    requires
        links_finite(m),
    ensures
        links_finite(add_weight(m, node, next, w)),
        forall|n: NodeModel<V>|
            #[trigger] node_total(add_weight(m, node, next, w), n) == node_total(m, n) + if n
                == node {
                w
            } else {
                0
            },
{
    let l = links_of(m, node);
    assert(l.dom().finite());
    lemma_map_sum_insert(l, next, weight(m, node, next) + w);
    let a = add_weight(m, node, next, w);
    assert forall|n: NodeModel<V>| #[trigger] node_total(a, n) == node_total(m, n) + if n == node {
        w
    } else {
        0
    } by {
        if n != node {
            assert(links_of(a, n) == links_of(m, n));
        }
    }
}

/// Recording transitions keeps link tables finite.
pub proof fn lemma_record_finite<V>(m: TableModel<V>, order: nat, p: Seq<Option<V>>, k: nat)
    requires
        links_finite(m),
    ensures
        links_finite(record(m, order, p, k)),
    decreases k,
{
    if k > 0 {
        let i = (k - 1) as nat;
        lemma_record_finite(m, order, p, i);
        lemma_add_weight_total(record(m, order, p, i), window_at(p, order, i as int), next_at(p, i as int), 1);
    }
}

/// Totals only grow while transitions are recorded.
pub proof fn lemma_record_totals_grow<V>(
    m: TableModel<V>,
    order: nat,
    p: Seq<Option<V>>,
    k: nat,
    k2: nat,
)
    requires
        links_finite(m),
        k <= k2,
    ensures
        forall|n: NodeModel<V>|
            node_total(record(m, order, p, k), n) <= #[trigger] node_total(record(m, order, p, k2), n),
    decreases k2,
{
    if k < k2 {
        let i = (k2 - 1) as nat;
        lemma_record_totals_grow(m, order, p, k, i);
        lemma_record_finite(m, order, p, i);
        lemma_add_weight_total(record(m, order, p, i), window_at(p, order, i as int), next_at(p, i as int), 1);
        assert forall|n: NodeModel<V>|
            node_total(record(m, order, p, k), n) <= #[trigger] node_total(record(m, order, p, k2), n) by {
            assert(node_total(record(m, order, p, k), n) <= node_total(record(m, order, p, i), n));
        }
    }
}

/// Recording transition `k` keeps its node's total within `u32::MAX` when the
/// last of all `k2` transitions does.
pub proof fn lemma_record_step_fits<V>(
    m: TableModel<V>,
    order: nat,
    p: Seq<Option<V>>,
    k: nat,
    k2: nat,
)
    requires
        links_finite(m),
        k < k2,
        totals_fit(record(m, order, p, k2)),
    ensures
        node_total(record(m, order, p, k), window_at(p, order, k as int)) + 1 <= u32::MAX,
{
    let n = window_at(p, order, k as int);
    lemma_record_finite(m, order, p, k);
    lemma_add_weight_total(record(m, order, p, k), n, next_at(p, k as int), 1);
    lemma_record_totals_grow(m, order, p, k + 1, k2);
    let f = record(m, order, p, k2);
    assert(node_total(f, n) >= 1);
    if !f.contains_key(n) {
        assert(links_of(f, n) == Map::<Option<V>, nat>::empty());
        assert(map_sum(Map::<Option<V>, nat>::empty()) == 0);
    }
}

/// Moving the window one position on drops its first slot and appends the
/// value just passed.
pub proof fn lemma_window_shift<V>(p: Seq<Option<V>>, order: nat, k: int)
    requires
        order >= 1,
        0 <= k < p.len(),
    ensures
        window_at(p, order, k + 1) == window_at(p, order, k).drop_first().push(p[k]),
{
    assert(window_at(p, order, k + 1) =~= window_at(p, order, k).drop_first().push(p[k]));
}

/// Every transition of `p` is in `b`, with at most the weight it has there.
pub open spec fn sub_table<V>(p: TableModel<V>, b: TableModel<V>) -> bool {
    forall|n: NodeModel<V>, x: Option<V>|
        #[trigger] links_of(p, n).contains_key(x) ==> links_of(b, n).contains_key(x) && links_of(
            p,
            n,
        )[x] <= links_of(b, n)[x]
}

/// Merging tables with finite link tables gives finite link tables.
pub proof fn lemma_merged_links_finite<V>(a: TableModel<V>, b: TableModel<V>)
    requires
        links_finite(a),
        links_finite(b),
    ensures
        forall|n: NodeModel<V>| #[trigger] links_of(merged(a, b), n).dom().finite(),
{
    assert forall|n: NodeModel<V>| #[trigger] links_of(merged(a, b), n).dom().finite() by {
        if merged(a, b).contains_key(n) {
            assert(links_of(a, n).dom().finite());
            assert(links_of(b, n).dom().finite());
            assert(links_of(merged(a, b), n).dom() =~= links_of(a, n).dom().union(links_of(b, n).dom()));
        } else {
            assert(links_of(merged(a, b), n).dom() =~= Set::<Option<V>>::empty());
        }
    }
}

/// Merging a part of `b` gives totals no larger than merging all of `b`.
pub proof fn lemma_merged_totals_le<V>(a: TableModel<V>, p: TableModel<V>, b: TableModel<V>)
    requires
        links_finite(a),
        links_finite(b),
        sub_table(p, b),
    ensures
        forall|n: NodeModel<V>| #[trigger] node_total(merged(a, p), n) <= node_total(merged(a, b), n),
{
    lemma_merged_links_finite(a, b);
    assert forall|n: NodeModel<V>| #[trigger] node_total(merged(a, p), n) <= node_total(merged(a, b), n) by {
        let lp = links_of(merged(a, p), n);
        let lb = links_of(merged(a, b), n);
        assert forall|x: Option<V>| #[trigger] lp.contains_key(x) implies lb.contains_key(x) && lp[x] <= lb[x] by {
            if links_of(p, n).contains_key(x) {
                assert(links_of(b, n).contains_key(x) && links_of(p, n)[x] <= links_of(b, n)[x]);
            }
            assert(merged(a, b).contains_key(n));
        }
        lemma_map_sum_le(lp, lb);
    }
}

/// Merging after adding a weight to `p` is adding that weight after merging.
pub proof fn lemma_merged_add_weight<V>(
    a: TableModel<V>,
    p: TableModel<V>,
    n: NodeModel<V>,
    x: Option<V>,
    w: nat,
)
    ensures
        merged(a, add_weight(p, n, x, w)) == add_weight(merged(a, p), n, x, w),
{
    let lhs = merged(a, add_weight(p, n, x, w));
    let rhs = add_weight(merged(a, p), n, x, w);
    assert(lhs.dom() =~= rhs.dom());
    assert forall|k: NodeModel<V>| #[trigger] lhs.contains_key(k) implies lhs[k] == rhs[k] by {
        if k == n {
            assert(lhs[k] =~= rhs[k]);
        } else {
            assert(lhs[k] =~= rhs[k]);
        }
    }
    assert(lhs =~= rhs);
}

/// Merging into an empty table adopts the other table as it is.
pub proof fn lemma_merged_empty<V>(b: TableModel<V>)
    ensures
        merged(TableModel::<V>::empty(), b) == b,
{
    let e = TableModel::<V>::empty();
    let lhs = merged(e, b);
    assert(lhs.dom() =~= b.dom());
    assert forall|k: NodeModel<V>| #[trigger] lhs.contains_key(k) implies lhs[k] == b[k] by {
        assert(lhs[k] =~= b[k]);
    }
    assert(lhs =~= b);
}

/// Merging an empty table changes nothing.
pub proof fn lemma_merged_empty_right<V>(a: TableModel<V>)
    ensures
        merged(a, TableModel::<V>::empty()) == a,
{
    let e = TableModel::<V>::empty();
    let lhs = merged(a, e);
    assert(lhs.dom() =~= a.dom());
    assert forall|k: NodeModel<V>| #[trigger] lhs.contains_key(k) implies lhs[k] == a[k] by {
        assert(lhs[k] =~= a[k]);
    }
    assert(lhs =~= a);
}

/// A sequence of tokens as slots.
pub open spec fn slots_of<V>(out: Seq<V>) -> Seq<Option<V>> {
    out.map_values(|t: V| Some(t))
}

/// The tokens of a node, boundary markers left out, in order.
pub open spec fn node_tokens<V>(n: NodeModel<V>) -> Seq<V>
    decreases n.len(),
{
    if n.len() == 0 {
        Seq::empty()
    } else {
        let r = node_tokens(n.drop_last());
        match n.last() {
            Some(t) => r.push(t),
            None => r,
        }
    }
}

/// The window of the last `order` tokens of `out` before position `j`.
pub open spec fn window_of<V>(out: Seq<V>, order: nat, j: int) -> NodeModel<V> {
    slots_of(out.subrange(j - order, j))
}

/// `out` is an outcome of a walk over `m` that starts at node `start` with
/// limit `max` (none when `max <= 0`).
///
/// A start that holds a boundary marker gives its own tokens and nothing
/// more. Otherwise the outcome begins with the start's tokens, every token
/// after them follows its window with positive weight, and the walk stopped
/// for a reason: the limit was reached, the boundary marker was drawn, or the
/// last window is not a node. The limit is checked after each token drawn.
pub open spec fn walk_ok<V>(m: TableModel<V>, order: nat, start: NodeModel<V>, max: int, out: Seq<V>) -> bool {
    if start.contains(None) {
        out == node_tokens(start)
    } else {
        let last = window_of(out, order, out.len() as int);
        &&& out.len() >= order
        &&& slots_of(out.take(order as int)) == start
        &&& forall|j: int|
            order <= j < out.len() ==> weight(m, window_of(out, order, j), Some(out[j])) > 0
        &&& (max > 0 && out.len() >= max && out.len() > order) || weight(m, last, None) > 0
            || !m.contains_key(last)
        &&& max > 0 && out.len() > order + 1 ==> out.len() <= max
    }
}

/// `m2` holds every node of `m1`, each with at least the same total.
pub open spec fn table_le<V>(m1: TableModel<V>, m2: TableModel<V>) -> bool {
    &&& forall|n: NodeModel<V>| #[trigger] m1.contains_key(n) ==> m2.contains_key(n)
    &&& forall|n: NodeModel<V>| #[trigger] node_total(m1, n) <= node_total(m2, n)
}

/// A table below one whose totals fit has totals that fit too.
pub proof fn lemma_totals_fit_le<V>(m1: TableModel<V>, m2: TableModel<V>)
    requires
        table_le(m1, m2),
        totals_fit(m2),
    ensures
        totals_fit(m1),
{
    assert forall|n: NodeModel<V>| #[trigger] m1.contains_key(n) implies map_sum(m1[n]) <= u32::MAX by {
        assert(node_total(m1, n) <= node_total(m2, n));
        assert(m2.contains_key(n));
    }
}

/// Recording transitions only adds nodes and weight.
pub proof fn lemma_record_le<V>(m: TableModel<V>, order: nat, p: Seq<Option<V>>, k: nat)
    requires
        links_finite(m),
    ensures
        table_le(m, record(m, order, p, k)),
        links_finite(record(m, order, p, k)),
    decreases k,
{
    lemma_record_finite(m, order, p, k);
    lemma_record_totals_grow(m, order, p, 0, k);
    if k > 0 {
        let i = (k - 1) as nat;
        lemma_record_le(m, order, p, i);
    }
}

/// Training only adds nodes and weight.
pub proof fn lemma_trained_le<V>(m: TableModel<V>, order: nat, s: Seq<V>)
    requires
        links_finite(m),
    ensures
        table_le(m, trained(m, order, s)),
        links_finite(trained(m, order, s)),
{
    if s.len() > 0 {
        let p = padded(s, order);
        lemma_record_le(m, order, p, p.len() + 1);
    }
}

/// Training on the first `k` units gives a table below training on all.
pub proof fn lemma_trained_all_prefix_le<V>(m: TableModel<V>, order: nat, units: Seq<Seq<V>>, k: int)
    requires
        links_finite(m),
        0 <= k <= units.len(),
    ensures
        table_le(trained_all(m, order, units.take(k)), trained_all(m, order, units)),
        links_finite(trained_all(m, order, units)),
        links_finite(trained_all(m, order, units.take(k))),
    decreases units.len(),
{
    if k == units.len() {
        assert(units.take(k) =~= units);
        if units.len() > 0 {
            lemma_trained_all_prefix_le(m, order, units.drop_last(), 0);
            lemma_trained_le(trained_all(m, order, units.drop_last()), order, units.last());
        }
    } else {
        let d = units.drop_last();
        lemma_trained_all_prefix_le(m, order, d, k);
        assert(d.take(k) =~= units.take(k));
        lemma_trained_le(trained_all(m, order, d), order, units.last());
    }
}

/// Every node of `m` can take `h` more weight without its total passing
/// `u32::MAX`; this is what `Chain::headroom` reports.
pub open spec fn has_headroom<V>(m: TableModel<V>, h: nat) -> bool {
    &&& h <= u32::MAX
    &&& forall|n: NodeModel<V>| #[trigger] m.contains_key(n) ==> node_total(m, n) + h <= u32::MAX
}

/// The number of transitions that training on `s` records.
pub open spec fn observations<V>(order: nat, s: Seq<V>) -> nat {
    if s.len() == 0 {
        0
    } else {
        padded(s, order).len() + 1
    }
}

/// The number of transitions that training on each of `units` records.
pub open spec fn observations_all<V>(order: nat, units: Seq<Seq<V>>) -> nat
    decreases units.len(),
{
    if units.len() == 0 {
        0
    } else {
        observations_all(order, units.drop_last()) + observations(order, units.last())
    }
}

proof fn lemma_record_totals_bound<V>(m: TableModel<V>, order: nat, p: Seq<Option<V>>, k: nat)
    requires
        links_finite(m),
    ensures
        forall|n: NodeModel<V>| #[trigger] node_total(record(m, order, p, k), n) <= node_total(m, n) + k,
    decreases k,
{
    if k > 0 {
        let i = (k - 1) as nat;
        lemma_record_totals_bound(m, order, p, i);
        lemma_record_finite(m, order, p, i);
        lemma_add_weight_total(record(m, order, p, i), window_at(p, order, i as int), next_at(p, i as int), 1);
        assert forall|n: NodeModel<V>| #[trigger] node_total(record(m, order, p, k), n) <= node_total(m, n) + k by {
            assert(node_total(record(m, order, p, i), n) <= node_total(m, n) + i);
        }
    }
}

/// Training on the units adds at most their number of transitions to any
/// node's total.
pub proof fn lemma_trained_all_totals_bound<V>(m: TableModel<V>, order: nat, units: Seq<Seq<V>>)
    requires
        links_finite(m),
    ensures
        links_finite(trained_all(m, order, units)),
        forall|n: NodeModel<V>|
            #[trigger] node_total(trained_all(m, order, units), n) <= node_total(m, n)
                + observations_all(order, units),
    decreases units.len(),
{
    if units.len() > 0 {
        let d = units.drop_last();
        let md = trained_all(m, order, d);
        lemma_trained_all_totals_bound(m, order, d);
        lemma_trained_le(md, order, units.last());
        if units.last().len() > 0 {
            let p = padded(units.last(), order);
            lemma_record_totals_bound(md, order, p, p.len() + 1);
        }
        assert forall|n: NodeModel<V>|
            #[trigger] node_total(trained_all(m, order, units), n) <= node_total(m, n)
                + observations_all(order, units) by {
            assert(node_total(md, n) <= node_total(m, n) + observations_all(order, d));
        }
    }
}

/// A table with headroom for every transition that training on the units
/// records stays within what the sampler accepts after that training.
pub proof fn lemma_trained_all_fits<V>(m: TableModel<V>, order: nat, units: Seq<Seq<V>>, h: nat)
    requires
        links_finite(m),
        has_headroom(m, h),
        observations_all(order, units) <= h,
    ensures
        totals_fit(trained_all(m, order, units)),
{
    lemma_trained_all_totals_bound(m, order, units);
    let f = trained_all(m, order, units);
    assert forall|n: NodeModel<V>| #[trigger] f.contains_key(n) implies map_sum(f[n]) <= u32::MAX by {
        assert(node_total(f, n) <= node_total(m, n) + observations_all(order, units));
        if !m.contains_key(n) {
            assert(links_of(m, n) == Map::<Option<V>, nat>::empty());
            assert(map_sum(Map::<Option<V>, nat>::empty()) == 0);
        }
    }
}

/// A table with headroom for the transitions of one training stays within
/// what the sampler accepts after it.
pub proof fn lemma_trained_fits<V>(m: TableModel<V>, order: nat, s: Seq<V>, h: nat)
    requires
        links_finite(m),
        has_headroom(m, h),
        observations(order, s) <= h,
    ensures
        totals_fit(trained(m, order, s)),
{
    let units = seq![s];
    assert(units.drop_last() =~= Seq::<Seq<V>>::empty());
    assert(units.last() == s);
    assert(trained_all(m, order, units.drop_last()) == m);
    assert(observations_all(order, units.drop_last()) == 0);
    assert(trained_all(m, order, units) == trained(m, order, s));
    lemma_trained_all_fits(m, order, units, h);
}

/// The total of two merged link tables is the sum of their totals.
pub proof fn lemma_merged_links_sum<V>(x: LinkModel<V>, y: LinkModel<V>)
    requires
        x.dom().finite(),
        y.dom().finite(),
    ensures
        map_sum(merged_links(x, y)) == map_sum(x) + map_sum(y),
    decreases y.dom().len(),
{
    if y.dom().len() == 0 {
        assert(y.dom() =~= Set::<Option<V>>::empty());
        assert(merged_links(x, y) =~= x);
    } else {
        let k = y.dom().choose();
        assert(y.dom().contains(k));
        let y2 = y.remove(k);
        lemma_merged_links_sum(x, y2);
        lemma_map_sum_remove(y, k);
        let m2 = merged_links(x, y2);
        assert(m2.dom() =~= x.dom().union(y2.dom()));
        assert(merged_links(x, y) =~= m2.insert(k, link_weight(x, k) + y[k]));
        lemma_map_sum_insert(m2, k, link_weight(x, k) + y[k]);
    }
}

/// Two tables whose headrooms add up to `u32::MAX` can be merged.
pub proof fn lemma_merged_fits<V>(a: TableModel<V>, b: TableModel<V>, ha: nat, hb: nat)
    requires
        links_finite(a),
        links_finite(b),
        has_headroom(a, ha),
        has_headroom(b, hb),
        ha + hb >= u32::MAX,
    ensures
        totals_fit(merged(a, b)),
{
    let m = merged(a, b);
    assert forall|n: NodeModel<V>| #[trigger] m.contains_key(n) implies map_sum(m[n]) <= u32::MAX by {
        let la = links_of(a, n);
        let lb = links_of(b, n);
        assert(la.dom().finite());
        assert(lb.dom().finite());
        lemma_merged_links_sum(la, lb);
        if !a.contains_key(n) {
            assert(la == Map::<Option<V>, nat>::empty());
            assert(map_sum(Map::<Option<V>, nat>::empty()) == 0);
        }
        if !b.contains_key(n) {
            assert(lb == Map::<Option<V>, nat>::empty());
            assert(map_sum(Map::<Option<V>, nat>::empty()) == 0);
        }
    }
}

} // verus!
