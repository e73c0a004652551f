use vstd::prelude::*;

use crate::assoc::{
    keys_unique, lemma_map_sum_pairs, lemma_pairs_to_map_dom, lemma_pairs_to_map_index,
    lemma_pairs_to_map_len,
    lemma_pairs_to_map_prefix, lemma_pairs_to_map_update, lemma_sum_values_prefix, map_sum,
    pairs_to_map, sum_values,
};
use crate::model::{add_weight, links_of, sub_table, table_wf, LinkModel, NodeModel, TableModel};
use crate::random::weights_sum;
use crate::token::Chainable;

verus! {

/// A node as stored: `order` slots, `None` being the boundary marker.
pub type Node<T> = Vec<Option<T>>;

/// A link table as stored: each possible next value with its weight.
pub type Link<T> = Vec<(Option<T>, u32)>;

/// The pairs of a stored link table, as values and natural weights.
pub open spec fn link_pairs<T: DeepView>(l: Seq<(Option<T>, u32)>) -> Seq<(Option<T::V>, nat)> {
    l.map_values(|p: (Option<T>, u32)| (p.0.deep_view(), p.1 as nat))
}

/// The link table that a stored link table stands for.
pub open spec fn link_model<T: DeepView>(l: Seq<(Option<T>, u32)>) -> LinkModel<T::V> {
    pairs_to_map(link_pairs(l))
}

/// The pairs of a stored transition table, as node values and link tables.
pub open spec fn table_pairs<T: DeepView>(t: Seq<(Node<T>, Link<T>)>) -> Seq<
    (NodeModel<T::V>, LinkModel<T::V>),
> {
    t.map_values(|e: (Node<T>, Link<T>)| (e.0.deep_view(), link_model(e.1@)))
}

/// The transition table that a stored transition table stands for.
pub open spec fn table_model<T: DeepView>(t: Seq<(Node<T>, Link<T>)>) -> TableModel<T::V> {
    pairs_to_map(table_pairs(t))
}

/// A stored link table is valid: non-empty, each next value once, positive
/// weights summing to at most `u32::MAX`.
pub open spec fn link_valid<T: DeepView>(l: Seq<(Option<T>, u32)>) -> bool {
    &&& l.len() > 0
    &&& keys_unique(link_pairs(l))
    &&& forall|j: int| 0 <= j < l.len() ==> #[trigger] l[j].1 >= 1
    &&& sum_values(link_pairs(l)) <= u32::MAX
}

/// An entry of a stored table has a valid link table.
pub open spec fn table_valid_entry<T: DeepView>(e: (Node<T>, Link<T>)) -> bool {
    link_valid(e.1@)
}

/// A stored transition table is valid for `order`: the order is positive,
/// each node occurs once, has `order` slots and a valid link table.
pub open spec fn table_valid<T: DeepView>(order: usize, t: Seq<(Node<T>, Link<T>)>) -> bool {
    &&& order >= 1
    &&& keys_unique(table_pairs(t))
    &&& forall|i: int|
        0 <= i < t.len() ==> (#[trigger] t[i]).0@.len() == order && link_valid(t[i].1@)
}

pub(crate) proof fn lemma_link_valid_model<T: DeepView>(l: Seq<(Option<T>, u32)>)
    requires
        link_valid(l),
    ensures
        link_model(l).dom().finite(),
        link_model(l).dom().len() > 0,
        forall|x: Option<T::V>| #[trigger] link_model(l).contains_key(x) ==> link_model(l)[x] >= 1,
        map_sum(link_model(l)) == sum_values(link_pairs(l)),
{
    let p = link_pairs(l);
    lemma_pairs_to_map_dom(p);
    lemma_map_sum_pairs(p);
    assert(link_model(l).contains_key(p[0].0));
    assert forall|x: Option<T::V>| #[trigger] link_model(l).contains_key(x) implies link_model(
        l,
    )[x] >= 1 by {
        let j = choose|j: int| 0 <= j < p.len() && p[j].0 == x;
        lemma_pairs_to_map_index(p, j);
        assert(l[j].1 >= 1);
    }
}

/// A valid stored table stands for a well-formed transition table.
pub proof fn lemma_table_valid_wf<T: DeepView>(order: usize, t: Seq<(Node<T>, Link<T>)>)
    requires
        table_valid(order, t),
    ensures
        table_wf(table_model(t), order as nat),
{
    let p = table_pairs(t);
    lemma_pairs_to_map_dom(p);
    assert forall|n: NodeModel<T::V>| #[trigger] table_model(t).contains_key(n) implies {
        &&& n.len() == order
        &&& table_model(t)[n].dom().finite()
        &&& table_model(t)[n].dom().len() > 0
        &&& forall|x: Option<T::V>| #[trigger]
            table_model(t)[n].contains_key(x) ==> table_model(t)[n][x] >= 1
    } && map_sum(table_model(t)[n]) <= u32::MAX by {
        let i = choose|i: int| 0 <= i < p.len() && p[i].0 == n;
        lemma_pairs_to_map_index(p, i);
        assert(t[i].0@.len() == order && link_valid(t[i].1@));
        lemma_link_valid_model(t[i].1@);
    }
}

/// Replacing the link table of entry `i` by a valid one keeps the stored
/// table valid, and replaces that node's link table in the model.
pub(crate) proof fn lemma_replace_links<T: DeepView>(
    order: usize,
    t: Seq<(Node<T>, Link<T>)>,
    i: int,
    l: Link<T>,
)
    requires
        table_valid(order, t),
        0 <= i < t.len(),
        link_valid(l@),
    ensures
        table_valid(order, t.update(i, (t[i].0, l))),
        table_model(t.update(i, (t[i].0, l))) == table_model(t).insert(
            t[i].0.deep_view(),
            link_model(l@),
        ),
{
    let t2 = t.update(i, (t[i].0, l));
    assert(table_pairs(t2) =~= table_pairs(t).update(i, (t[i].0.deep_view(), link_model(l@))));
    lemma_pairs_to_map_update(table_pairs(t), i, link_model(l@));
    assert forall|k: int| 0 <= k < t2.len() implies (#[trigger] t2[k]).0@.len() == order
        && link_valid(t2[k].1@) by {
        if k != i {
            assert(t2[k] == t[k]);
        }
    }
}

/// Appending a fresh node with a valid link table keeps the stored table
/// valid, and adds that node to the model.
pub(crate) proof fn lemma_push_node<T: DeepView>(
    order: usize,
    t: Seq<(Node<T>, Link<T>)>,
    n: Node<T>,
    l: Link<T>,
)
    requires
        table_valid(order, t),
        !table_model(t).contains_key(n.deep_view()),
        n@.len() == order,
        link_valid(l@),
    ensures
        table_valid(order, t.push((n, l))),
        table_model(t.push((n, l))) == table_model(t).insert(n.deep_view(), link_model(l@)),
{
    let t2 = t.push((n, l));
    let p = table_pairs(t);
    lemma_pairs_to_map_dom(p);
    assert(table_pairs(t2) =~= p.push((n.deep_view(), link_model(l@))));
    assert(table_pairs(t2).drop_last() =~= p);
    assert forall|a: int, b: int|
        0 <= a < table_pairs(t2).len() && 0 <= b < table_pairs(t2).len() && a != b implies #[trigger] table_pairs(t2)[a].0
        != #[trigger] table_pairs(t2)[b].0 by {
        if a < t.len() && b < t.len() {
            assert(p[a].0 != p[b].0);
        } else if a < t.len() {
            assert(p[a].0 != n.deep_view());
        } else {
            assert(p[b].0 != n.deep_view());
        }
    }
    assert forall|k: int| 0 <= k < t2.len() implies (#[trigger] t2[k]).0@.len() == order
        && link_valid(t2[k].1@) by {
        if k < t.len() {
            assert(t2[k] == t[k]);
        }
    }
}

/// Whether two slots hold the same value.
pub(crate) fn same_slot<T: Chainable>(a: &Option<T>, b: &Option<T>) -> (r: bool)
    ensures
        r == (a.deep_view() == b.deep_view()),
{
    match (a, b) {
        (None, None) => true,
        (Some(x), Some(y)) => x.same_token(y),
        _ => false,
    }
}

/// A copy of a slot.
pub(crate) fn copy_slot<T: Chainable>(a: &Option<T>) -> (r: Option<T>)
    ensures
        r.deep_view() == a.deep_view(),
{
    match a {
        None => None,
        Some(x) => Some(x.copy_token()),
    }
}

/// Whether two nodes hold the same values.
pub(crate) fn same_node<T: Chainable>(a: &Node<T>, b: &Node<T>) -> (r: bool)
    ensures
        r == (a.deep_view() == b.deep_view()),
{
    if a.len() != b.len() {
        assert(a.deep_view().len() != b.deep_view().len());
        return false;
    }
    let mut i: usize = 0;
    while i < a.len()
        invariant
            a@.len() == b@.len(),
            i <= a@.len(),
            forall|k: int| 0 <= k < i ==> a@[k].deep_view() == b@[k].deep_view(),
        decreases a@.len() - i,
    {
        if !same_slot(&a[i], &b[i]) {
            assert(a.deep_view()[i as int] != b.deep_view()[i as int]);
            return false;
        }
        i = i + 1;
    }
    assert(a.deep_view() =~= b.deep_view());
    true
}

/// A copy of a node.
pub(crate) fn copy_node<T: Chainable>(a: &Node<T>) -> (r: Node<T>)
    ensures
        r.deep_view() == a.deep_view(),
{
    let mut r: Node<T> = Vec::new();
    let mut i: usize = 0;
    while i < a.len()
        invariant
            i <= a@.len(),
            r@.len() == i,
            forall|k: int| 0 <= k < i ==> r@[k].deep_view() == a@[k].deep_view(),
        decreases a@.len() - i,
    {
        r.push(copy_slot(&a[i]));
        i = i + 1;
    }
    assert(r.deep_view() =~= a.deep_view());
    r
}

/// The position of `next` in a stored link table.
pub(crate) fn find_link<T: Chainable>(l: &Link<T>, next: &Option<T>) -> (r: Option<usize>)
    ensures
        match r {
            Some(j) => j < l@.len() && l@[j as int].0.deep_view() == next.deep_view(),
            None => !link_model(l@).contains_key(next.deep_view()),
        },
{
    let mut j: usize = 0;
    while j < l.len()
        invariant
            j <= l@.len(),
            forall|k: int| 0 <= k < j ==> l@[k].0.deep_view() != next.deep_view(),
        decreases l@.len() - j,
    {
        if same_slot(&l[j].0, next) {
            return Some(j);
        }
        j = j + 1;
    }
    proof {
        lemma_pairs_to_map_dom(link_pairs(l@));
        if link_model(l@).contains_key(next.deep_view()) {
            let k = choose|k: int|
                0 <= k < link_pairs(l@).len() && link_pairs(l@)[k].0 == next.deep_view();
            assert(l@[k].0.deep_view() == next.deep_view());
        }
    }
    None
}

/// A copy of a stored link table.
pub(crate) fn copy_links<T: Chainable>(l: &Link<T>) -> (r: Link<T>)
    ensures
        link_pairs(r@) == link_pairs(l@),
{
    let mut r: Link<T> = Vec::new();
    let mut j: usize = 0;
    while j < l.len()
        invariant
            j <= l@.len(),
            r@.len() == j,
            link_pairs(r@) == link_pairs(l@).take(j as int),
        decreases l@.len() - j,
    {
        let x = copy_slot(&l[j].0);
        let ghost r0 = r@;
        let ghost xv = x.deep_view();
        r.push((x, l[j].1));
        proof {
            assert(link_pairs(r@)[j as int] == (xv, l@[j as int].1 as nat));
            assert forall|k: int| 0 <= k < j implies #[trigger] link_pairs(r@)[k] == link_pairs(r0)[k] by {
                assert(r@[k] == r0[k]);
            }
            assert(link_pairs(r@) =~= link_pairs(l@).take(j + 1));
        }
        j = j + 1;
    }
    assert(link_pairs(l@).take(l@.len() as int) =~= link_pairs(l@));
    r
}

/// A copy of a stored transition table.
pub(crate) fn copy_table<T: Chainable>(t: &Vec<(Node<T>, Link<T>)>) -> (r: Vec<(Node<T>, Link<T>)>)
    ensures
        table_pairs(r@) == table_pairs(t@),
        forall|i: int| 0 <= i < t@.len() ==> (table_valid_entry(t@[i]) ==> table_valid_entry(#[trigger] r@[i]))
            && r@[i].0@.len() == t@[i].0@.len(),
        r@.len() == t@.len(),
{
    let mut r: Vec<(Node<T>, Link<T>)> = Vec::new();
    let mut i: usize = 0;
    while i < t.len()
        invariant
            i <= t@.len(),
            r@.len() == i,
            table_pairs(r@) == table_pairs(t@).take(i as int),
            forall|k: int| 0 <= k < i ==> (table_valid_entry(t@[k]) ==> table_valid_entry(#[trigger] r@[k]))
                && r@[k].0@.len() == t@[k].0@.len(),
        decreases t@.len() - i,
    {
        let n = copy_node(&t[i].0);
        let l = copy_links(&t[i].1);
        proof {
            let a = l@;
            let b = t@[i as int].1@;
            assert(a.len() == link_pairs(a).len());
            assert forall|k: int| 0 <= k < a.len() implies #[trigger] a[k].1 == b[k].1 by {
                assert(link_pairs(a)[k] == link_pairs(b)[k]);
            }
            assert(n@.len() == n.deep_view().len());
            if link_valid(b) {
                assert forall|k: int| 0 <= k < a.len() implies #[trigger] a[k].1 >= 1 by {
                    assert(b[k].1 >= 1);
                }
            }
        }
        let ghost r0 = r@;
        r.push((n, l));
        proof {
            assert(table_pairs(r@) =~= table_pairs(t@).take(i + 1));
            assert forall|k: int| 0 <= k < i + 1 implies (table_valid_entry(t@[k]) ==> table_valid_entry(#[trigger] r@[k]))
                && r@[k].0@.len() == t@[k].0@.len() by {
                if k < i {
                    assert(r@[k] == r0[k]);
                }
            }
        }
        i = i + 1;
    }
    assert(table_pairs(t@).take(t@.len() as int) =~= table_pairs(t@));
    r
}

/// The part of the stored table `t` that precedes link `j` of entry `i`.
pub(crate) open spec fn partial_model<T: DeepView>(t: Seq<(Node<T>, Link<T>)>, i: int, j: int) -> TableModel<T::V> {
    if j == 0 {
        table_model(t.take(i))
    } else {
        table_model(t.take(i)).insert(t[i].0.deep_view(), link_model(t[i].1@.take(j)))
    }
}

pub(crate) proof fn lemma_partial_sub<T: DeepView>(order: usize, t: Seq<(Node<T>, Link<T>)>, i: int, j: int)
    requires
        table_valid(order, t),
        0 <= i <= t.len(),
        i == t.len() ==> j == 0,
        i < t.len() ==> 0 <= j <= t[i].1@.len(),
    ensures
        sub_table(partial_model(t, i, j), table_model(t)),
{
    let p = table_pairs(t);
    assert(table_pairs(t.take(i)) =~= p.take(i));
    lemma_pairs_to_map_prefix(p, i);
    let pm = partial_model(t, i, j);
    let b = table_model(t);
    assert forall|n: NodeModel<T::V>, x: Option<T::V>|
        #[trigger] links_of(pm, n).contains_key(x) implies links_of(b, n).contains_key(x) && links_of(
            pm,
            n,
        )[x] <= links_of(b, n)[x] by {
        if j > 0 && n == t[i].0.deep_view() {
            let l = t[i].1@;
            assert(link_pairs(l.take(j)) =~= link_pairs(l).take(j));
            lemma_pairs_to_map_prefix(link_pairs(l), j);
            lemma_pairs_to_map_index(p, i);
        }
    }
}

pub(crate) proof fn lemma_partial_step<T: DeepView>(order: usize, t: Seq<(Node<T>, Link<T>)>, i: int, j: int)
    requires
        table_valid(order, t),
        0 <= i < t.len(),
        0 <= j < t[i].1@.len(),
    ensures
        partial_model(t, i, j + 1) == add_weight(
            partial_model(t, i, j),
            t[i].0.deep_view(),
            t[i].1@[j].0.deep_view(),
            t[i].1@[j].1 as nat,
        ),
{
    let p = table_pairs(t);
    let n = t[i].0.deep_view();
    let l = t[i].1@;
    let x = l[j].0.deep_view();
    assert(table_pairs(t.take(i)) =~= p.take(i));
    lemma_pairs_to_map_dom(p.take(i));
    if table_model(t.take(i)).contains_key(n) {
        let q = choose|q: int| 0 <= q < p.take(i).len() && p.take(i)[q].0 == n;
        assert(p[q].0 == p[i].0);
    }
    let lp = link_pairs(l);
    assert(link_pairs(l.take(j)) =~= lp.take(j));
    assert(link_pairs(l.take(j + 1)) =~= lp.take(j + 1));
    assert(lp.take(j + 1).drop_last() =~= lp.take(j));
    lemma_pairs_to_map_dom(lp.take(j));
    if link_model(l.take(j)).contains_key(x) {
        let q = choose|q: int| 0 <= q < lp.take(j).len() && lp.take(j)[q].0 == x;
        assert(lp[q].0 == lp[j].0);
    }
    if j == 0 {
        assert(lp.take(0) =~= Seq::<(Option<T::V>, nat)>::empty());
        assert(link_model(l.take(0)) =~= Map::<Option<T::V>, nat>::empty());
    }
    assert(links_of(partial_model(t, i, j), n) == link_model(l.take(j)));
}

pub(crate) proof fn lemma_partial_next<T: DeepView>(order: usize, t: Seq<(Node<T>, Link<T>)>, i: int)
    requires
        table_valid(order, t),
        0 <= i < t.len(),
    ensures
        partial_model(t, i, t[i].1@.len() as int) == partial_model(t, i + 1, 0),
{
    let p = table_pairs(t);
    assert(t[i].1@.take(t[i].1@.len() as int) =~= t[i].1@);
    assert(table_pairs(t.take(i + 1)) =~= p.take(i + 1));
    assert(table_pairs(t.take(i)) =~= p.take(i));
    assert(p.take(i + 1).drop_last() =~= p.take(i));
}

/// The weights of a stored link table.
pub(crate) open spec fn link_weights<T>(l: Seq<(Option<T>, u32)>) -> Seq<u32> {
    l.map_values(|p: (Option<T>, u32)| p.1)
}

pub(crate) proof fn lemma_link_weights_sum<T: DeepView>(l: Seq<(Option<T>, u32)>)
    ensures
        weights_sum(link_weights(l)) == sum_values(link_pairs(l)),
    decreases l.len(),
{
    if l.len() > 0 {
        assert(link_weights(l).drop_last() =~= link_weights(l.drop_last()));
        assert(link_pairs(l).drop_last() =~= link_pairs(l.drop_last()));
        lemma_link_weights_sum(l.drop_last());
    }
}

/// Whether a stored link table is valid.
pub(crate) fn valid_links<T: Chainable>(l: &Link<T>) -> (r: bool)
    ensures
        r == link_valid(l@),
{
    let ghost p = link_pairs(l@);
    if l.len() == 0 {
        return false;
    }
    let mut acc: u64 = 0;
    let mut j: usize = 0;
    while j < l.len()
        invariant
            p == link_pairs(l@),
            j <= l@.len(),
            acc == sum_values(p.take(j as int)),
            acc <= u32::MAX,
            forall|k: int| 0 <= k < j ==> #[trigger] l@[k].1 >= 1,
            forall|a: int, b: int| 0 <= a < j && 0 <= b < j && a != b ==> #[trigger] p[a].0 != #[trigger] p[b].0,
        decreases l@.len() - j,
    {
        if l[j].1 == 0 {
            return false;
        }
        proof {
            assert(p.take(j + 1).drop_last() =~= p.take(j as int));
        }
        acc = acc + l[j].1 as u64;
        if acc > u32::MAX as u64 {
            proof {
                lemma_sum_values_prefix(p, j + 1);
            }
            return false;
        }
        let mut k: usize = 0;
        while k < j
            invariant
                p == link_pairs(l@),
                k <= j < l@.len(),
                forall|q: int| 0 <= q < k ==> p[q].0 != p[j as int].0,
            decreases j - k,
        {
            if same_slot(&l[k].0, &l[j].0) {
                proof {
                    assert(p[k as int].0 == p[j as int].0);
                }
                return false;
            }
            k = k + 1;
        }
        j = j + 1;
    }
    proof {
        assert(p.take(l@.len() as int) =~= p);
    }
    true
}

/// Whether a stored transition table is valid for `order`.
pub(crate) fn valid_table<T: Chainable>(order: usize, t: &Vec<(Node<T>, Link<T>)>) -> (r: bool)
    ensures
        r == table_valid(order, t@),
{
    let ghost p = table_pairs(t@);
    if order == 0 {
        return false;
    }
    let mut i: usize = 0;
    while i < t.len()
        invariant
            p == table_pairs(t@),
            i <= t@.len(),
            forall|k: int| 0 <= k < i ==> (#[trigger] t@[k]).0@.len() == order && link_valid(t@[k].1@),
            forall|a: int, b: int| 0 <= a < i && 0 <= b < i && a != b ==> #[trigger] p[a].0 != #[trigger] p[b].0,
        decreases t@.len() - i,
    {
        if t[i].0.len() != order || !valid_links(&t[i].1) {
            return false;
        }
        let mut k: usize = 0;
        while k < i
            invariant
                p == table_pairs(t@),
                k <= i < t@.len(),
                forall|q: int| 0 <= q < k ==> p[q].0 != p[i as int].0,
            decreases i - k,
        {
            if same_node(&t[k].0, &t[i].0) {
                proof {
                    assert(p[k as int].0 == p[i as int].0);
                }
                return false;
            }
            k = k + 1;
        }
        i = i + 1;
    }
    true
}

/// Whether two valid stored link tables stand for the same link table.
pub(crate) fn same_links<T: Chainable>(a: &Link<T>, b: &Link<T>) -> (r: bool)
    requires
        link_valid(a@),
        link_valid(b@),
    ensures
        r == (link_model(a@) == link_model(b@)),
{
    let ghost pa = link_pairs(a@);
    let ghost pb = link_pairs(b@);
    let ghost ma = link_model(a@);
    let ghost mb = link_model(b@);
    proof {
        lemma_pairs_to_map_len(pa);
        lemma_pairs_to_map_len(pb);
        lemma_pairs_to_map_dom(pa);
        lemma_pairs_to_map_dom(pb);
    }
    if a.len() != b.len() {
        return false;
    }
    let mut j: usize = 0;
    while j < a.len()
        invariant
            pa == link_pairs(a@),
            pb == link_pairs(b@),
            ma == link_model(a@),
            mb == link_model(b@),
            link_valid(a@),
            link_valid(b@),
            j <= a@.len(),
            forall|q: int| 0 <= q < j ==> mb.contains_key(#[trigger] pa[q].0) && mb[pa[q].0] == pa[q].1,
        decreases a@.len() - j,
    {
        proof {
            lemma_pairs_to_map_index(pa, j as int);
        }
        match find_link(b, &a[j].0) {
            None => {
                return false;
            },
            Some(k) => {
                proof {
                    lemma_pairs_to_map_index(pb, k as int);
                }
                if a[j].1 != b[k].1 {
                    return false;
                }
            },
        }
        j = j + 1;
    }
    proof {
        assert forall|x: Option<T::V>| #[trigger] ma.contains_key(x) implies mb.contains_key(x)
            && ma[x] == mb[x] by {
            let q = choose|q: int| 0 <= q < pa.len() && pa[q].0 == x;
            lemma_pairs_to_map_index(pa, q);
        }
        assert(ma.dom().subset_of(mb.dom()));
        vstd::set_lib::lemma_subset_equality(ma.dom(), mb.dom());
        assert(ma =~= mb);
    }
    true
}

} // verus!
