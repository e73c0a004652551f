use vstd::prelude::*;

use crate::assoc::{
    keys_unique, lemma_map_sum_insert, lemma_map_sum_pairs, lemma_map_sum_remove,
    lemma_pairs_to_map_dom, lemma_pairs_to_map_index, lemma_pairs_to_map_len,
    lemma_pairs_to_map_update, lemma_sum_values_prefix, map_sum, pairs_to_map, sum_values,
};
use crate::model::{
    add_weight, has_headroom, lemma_add_weight_total, lemma_merged_add_weight, lemma_merged_empty,
    lemma_merged_empty_right, lemma_merged_totals_le, lemma_record_step_fits,
    lemma_table_wf_links_finite, lemma_window_shift, links_finite, links_of, merged, next_at,
    node_tokens, node_total, padded, record, slots_of, table_wf, totals_fit, trained, walk_ok,
    weight, window_at, window_of, LinkModel, NodeModel, TableModel,
};
use crate::random::{random_below, random_weighted_index};
use crate::store::{
    copy_node, copy_slot, copy_table, find_link, lemma_link_valid_model, lemma_link_weights_sum,
    lemma_partial_next, lemma_partial_step, lemma_partial_sub, lemma_push_node,
    lemma_replace_links, lemma_table_valid_wf, link_model, link_pairs, link_valid, link_weights,
    partial_model, same_links, same_node, table_model, table_pairs, table_valid, table_valid_entry,
    valid_table, Link, Node,
};
use crate::token::Chainable;

verus! {

/// A Markov chain of a fixed order over tokens of type `T`.
///
/// The chain maps each node (a window of `order` slots) to its link table
/// (the weight of each value seen to follow that window).
#[derive(Debug)]
pub struct Chain<T: Chainable> {
    table: Vec<(Node<T>, Link<T>)>,
    order: usize,
}

impl<T: Chainable> View for Chain<T> {
    type V = TableModel<T::V>;

    closed spec fn view(&self) -> TableModel<T::V> {
        table_model(self.table@)
    }
}

impl<T: Chainable> Chain<T> {
    /// The chain's invariant: its stored table is valid for its order.
    pub closed spec fn wf(&self) -> bool {
        table_valid(self.order, self.table@)
    }

    /// The order of the chain.
    pub closed spec fn spec_order(&self) -> nat {
        self.order as nat
    }

    /// The stored table, in the layout that `chain` hands out.
    pub closed spec fn raw(&self) -> Seq<(Node<T>, Link<T>)> {
        self.table@
    }

    /// A well-formed chain stands for a well-formed table.
    pub proof fn lemma_wf(&self)
        requires
            self.wf(),
        ensures
            table_wf(self@, self.spec_order()),
            self.spec_order() >= 1,
            self@ == table_model(self.raw()),
            table_valid(self.spec_order() as usize, self.raw()),
    {
        lemma_table_valid_wf(self.order, self.table@);
    }

    /// A new, empty chain of the given order.
    pub fn new(order: usize) -> (r: Self)
        requires
            order >= 1,
        ensures
            r.wf(),
            r.spec_order() == order,
            r@ == TableModel::<T::V>::empty(),
    {
        let r = Chain { table: Vec::new(), order };
        proof {
            assert(table_pairs(r.table@) =~= Seq::<(NodeModel<T::V>, LinkModel<T::V>)>::empty());
            assert(r@ =~= TableModel::<T::V>::empty());
        }
        r
    }

    /// The order of the chain: the number of slots of each node.
    pub fn order(&self) -> (r: usize)
        ensures
            r == self.spec_order(),
    {
        self.order
    }

    /// Whether the chain holds no transition at all.
    pub fn is_empty(&self) -> (r: bool)
        ensures
            r == (self@ == TableModel::<T::V>::empty()),
    {
        proof {
            let p = table_pairs(self.table@);
            lemma_pairs_to_map_dom(p);
            if self.table@.len() == 0 {
                assert(p =~= Seq::<(NodeModel<T::V>, LinkModel<T::V>)>::empty());
                assert(self@ =~= TableModel::<T::V>::empty());
            } else {
                assert(self@.contains_key(p[0].0));
            }
        }
        self.table.len() == 0
    }

    /// The stored transition table: each node with its link table.
    pub fn chain(&self) -> (r: &Vec<(Node<T>, Link<T>)>)
        requires
            self.wf(),
        ensures
            r@ == self.raw(),
            table_model(r@) == self@,
            table_valid(self.spec_order() as usize, r@),
    {
        &self.table
    }

    /// A chain of the given order holding a stored table, or `None` when the
    /// table is not valid for that order (order zero, a node of another
    /// length, a node or a next value listed twice, an empty link table, a
    /// zero weight, or weights of a node summing past `u32::MAX`).
    pub fn from_table(order: usize, table: Vec<(Node<T>, Link<T>)>) -> (r: Option<Self>)
        ensures
            r is Some <==> table_valid(order, table@),
            r matches Some(c) ==> c.wf() && c.spec_order() == order && c.raw() == table@ && c@
                == table_model(table@),
    {
        if valid_table(order, &table) {
            Some(Chain { table, order })
        } else {
            None
        }
    }

    /// Whether two chains are the same chain: the same order and the same
    /// transitions with the same weights, whatever the order of storage.
    pub fn same_chain(&self, other: &Self) -> (r: bool)
        requires
            self.wf(),
            other.wf(),
        ensures
            r == (self.spec_order() == other.spec_order() && self@ == other@),
    {
        if self.order != other.order {
            return false;
        }
        let ghost pa = table_pairs(self.table@);
        let ghost pb = table_pairs(other.table@);
        let ghost ma = self@;
        let ghost mb = other@;
        proof {
            lemma_pairs_to_map_len(pa);
            lemma_pairs_to_map_len(pb);
            lemma_pairs_to_map_dom(pa);
            lemma_pairs_to_map_dom(pb);
        }
        if self.table.len() != other.table.len() {
            return false;
        }
        let mut i: usize = 0;
        while i < self.table.len()
            invariant
                self.wf(),
                other.wf(),
                pa == table_pairs(self.table@),
                pb == table_pairs(other.table@),
                ma == self@,
                mb == other@,
                i <= self.table@.len(),
                forall|q: int|
                    0 <= q < i ==> mb.contains_key(#[trigger] pa[q].0) && mb[pa[q].0] == pa[q].1,
            decreases self.table@.len() - i,
        {
            proof {
                lemma_pairs_to_map_index(pa, i as int);
            }
            match other.find_node(&self.table[i].0) {
                None => {
                    return false;
                },
                Some(k) => {
                    proof {
                        lemma_pairs_to_map_index(pb, k as int);
                    }
                    if !same_links(&self.table[i].1, &other.table[k].1) {
                        return false;
                    }
                },
            }
            i = i + 1;
        }
        proof {
            assert forall|n: NodeModel<T::V>| #[trigger] ma.contains_key(n) implies mb.contains_key(n)
                && ma[n] == mb[n] by {
                let q = choose|q: int| 0 <= q < pa.len() && pa[q].0 == n;
                lemma_pairs_to_map_index(pa, q);
            }
            assert(ma.dom().subset_of(mb.dom()));
            vstd::set_lib::lemma_subset_equality(ma.dom(), mb.dom());
            assert(ma =~= mb);
        }
        true
    }

    /// The weight of the transition from `node` to `next`, zero when absent.
    pub fn weight_of(&self, node: &Node<T>, next: &Option<T>) -> (r: u32)
        requires
            self.wf(),
        ensures
            r == weight(self@, node.deep_view(), next.deep_view()),
    {
        match self.find_node(node) {
            None => 0,
            Some(i) => {
                proof {
                    lemma_pairs_to_map_index(table_pairs(self.table@), i as int);
                }
                match find_link(&self.table[i].1, next) {
                    None => 0,
                    Some(j) => {
                        proof {
                            lemma_pairs_to_map_index(link_pairs(self.table@[i as int].1@), j as int);
                        }
                        self.table[i].1[j].1
                    },
                }
            },
        }
    }

    /// How much weight every node can still take before its total passes
    /// `u32::MAX`: the least such margin over all nodes, `u32::MAX` for an
    /// empty chain.
    pub fn headroom(&self) -> (r: u32)
        requires
            self.wf(),
        ensures
            has_headroom(self@, r as nat),
            self@ == TableModel::<T::V>::empty() ==> r == u32::MAX,
            self@ != TableModel::<T::V>::empty() ==> exists|n: NodeModel<T::V>|
                #[trigger] self@.contains_key(n) && node_total(self@, n) + r == u32::MAX,
    {
        let ghost p = table_pairs(self.table@);
        let mut most: u32 = 0;
        let mut i: usize = 0;
        proof {
            lemma_pairs_to_map_dom(p);
        }
        while i < self.table.len()
            invariant
                self.wf(),
                p == table_pairs(self.table@),
                i <= self.table@.len(),
                forall|k: int| 0 <= k < i ==> map_sum(#[trigger] p[k].1) <= most,
                i > 0 ==> exists|k: int| 0 <= k < i && map_sum(#[trigger] p[k].1) == most,
                i == 0 ==> most == 0,
            decreases self.table@.len() - i,
        {
            let links = &self.table[i].1;
            let ghost l = links@;
            let mut sum: u32 = 0;
            let mut j: usize = 0;
            proof {
                assert(link_valid(l));
                lemma_link_valid_model(l);
                assert(p[i as int].1 == link_model(l));
            }
            while j < links.len()
                invariant
                    l == links@,
                    link_valid(l),
                    j <= l.len(),
                    sum == sum_values(link_pairs(l).take(j as int)),
                decreases l.len() - j,
            {
                proof {
                    assert(link_pairs(l).take(j + 1).drop_last() =~= link_pairs(l).take(j as int));
                    lemma_sum_values_prefix(link_pairs(l), j + 1);
                }
                sum = sum + links[j].1;
                j = j + 1;
            }
            proof {
                assert(link_pairs(l).take(l.len() as int) =~= link_pairs(l));
            }
            if i == 0 || sum > most {
                most = sum;
            }
            i = i + 1;
        }
        proof {
            assert forall|n: NodeModel<T::V>| #[trigger] self@.contains_key(n) implies node_total(self@, n)
                + (u32::MAX - most) <= u32::MAX by {
                let k = choose|k: int| 0 <= k < p.len() && p[k].0 == n;
                lemma_pairs_to_map_index(p, k);
            }
            if self.table@.len() > 0 {
                let k = choose|k: int| 0 <= k < self.table@.len() && map_sum(#[trigger] p[k].1) == most;
                lemma_pairs_to_map_index(p, k);
                assert(self@.contains_key(p[k].0));
                assert(node_total(self@, p[k].0) + (u32::MAX - most) == u32::MAX);
            } else {
                assert(p =~= Seq::<(NodeModel<T::V>, LinkModel<T::V>)>::empty());
                assert(self@ =~= TableModel::<T::V>::empty());
            }
            if self.table@.len() > 0 {
                assert(p[0].0 == p[0].0);
                assert(self@.contains_key(p[0].0));
                assert(self@ != TableModel::<T::V>::empty());
            }
        }
        u32::MAX - most
    }

    /// Trains the chain on one sequence of tokens.
    ///
    /// An empty sequence changes nothing. Otherwise the sequence is padded
    /// with boundary markers up to the order, and each transition from the
    /// all-boundary window through the padded sequence to the final boundary
    /// marker adds one to its weight.
    #[verifier::rlimit(40)]
    pub fn train(&mut self, string: Vec<T>) -> (r: &mut Self)
        requires
            old(self).wf(),
            totals_fit(trained(old(self)@, old(self).spec_order(), string.deep_view())),
        ensures
            r.wf(),
            r.spec_order() == old(self).spec_order(),
            r@ == trained(old(self)@, old(self).spec_order(), string.deep_view()),
            *final(self) == *final(r),
    {
        let ghost sv = string.deep_view();
        if string.len() == 0 {
            proof {
                assert(sv.len() == 0);
            }
            return self;
        }
        let order = self.order;
        let ghost m0 = self@;
        let ghost pv = padded(sv, order as nat);
        proof {
            lemma_table_valid_wf(self.order, self.table@);
        }
        let mut p: Node<T> = Vec::new();
        let mut i: usize = 0;
        while i < string.len()
            invariant
                i <= string@.len(),
                p@.len() == i,
                sv == string.deep_view(),
                forall|k: int| 0 <= k < i ==> #[trigger] p@[k].deep_view() == Some(sv[k]),
            decreases string@.len() - i,
        {
            p.push(Some(string[i].copy_token()));
            i = i + 1;
        }
        while p.len() < order
            invariant
                string@.len() <= p@.len(),
                sv == string.deep_view(),
                p@.len() <= order || p@.len() == string@.len(),
                forall|k: int| 0 <= k < string@.len() ==> #[trigger] p@[k].deep_view() == Some(sv[k]),
                forall|k: int| string@.len() <= k < p@.len() ==> #[trigger] p@[k].deep_view() == None::<T::V>,
            decreases order - p@.len(),
        {
            p.push(None);
        }
        proof {
            assert(p.deep_view() =~= pv);
        }
        let mut window: Node<T> = Vec::new();
        let mut j: usize = 0;
        while j < order
            invariant
                j <= order,
                window@.len() == j,
                forall|k: int| 0 <= k < j ==> #[trigger] window@[k].deep_view() == None::<T::V>,
            decreases order - j,
        {
            window.push(None);
            j = j + 1;
        }
        proof {
            assert(window.deep_view() =~= window_at(pv, order as nat, 0));
            lemma_record_step_fits(m0, order as nat, pv, 0, pv.len() + 1);
            assert(record(m0, order as nat, pv, 0) == m0);
            assert(p.deep_view()[0] == next_at(pv, 0));
        }
        self.update_link(&window, &p[0]);
        let mut end: usize = 0;
        while end < p.len() - 1
            invariant
                self.wf(),
                self.order == order,
                order >= 1,
                links_finite(m0),
                p.deep_view() == pv,
                pv.len() >= 1,
                end < pv.len(),
                window@.len() == order,
                window.deep_view() == window_at(pv, order as nat, end as int),
                self@ == record(m0, order as nat, pv, (end + 1) as nat),
                totals_fit(record(m0, order as nat, pv, pv.len() + 1)),
            decreases pv.len() - end,
        {
            window.remove(0);
            window.push(copy_slot(&p[end]));
            proof {
                lemma_window_shift(pv, order as nat, end as int);
                assert(window.deep_view() =~= window_at(pv, order as nat, end + 1));
                lemma_record_step_fits(m0, order as nat, pv, (end + 1) as nat, pv.len() + 1);
                assert(p.deep_view()[end + 1] == next_at(pv, end + 1));
            }
            self.update_link(&window, &p[end + 1]);
            end = end + 1;
        }
        window.remove(0);
        window.push(copy_slot(&p[end]));
        let none: Option<T> = None;
        proof {
            lemma_window_shift(pv, order as nat, end as int);
            assert(window.deep_view() =~= window_at(pv, order as nat, end + 1));
            lemma_record_step_fits(m0, order as nat, pv, (end + 1) as nat, pv.len() + 1);
            assert(none.deep_view() == next_at(pv, end + 1));
        }
        self.update_link(&window, &none);
        self
    }

    /// Merges `other` into this chain: the weight of every transition of
    /// `other` is added to the weight of the same transition here. When this
    /// chain is empty it takes a copy of the other table as it stands.
    pub fn merge(&mut self, other: &Self) -> (r: &mut Self)
        requires
            old(self).wf(),
            other.wf(),
            old(self).spec_order() == other.spec_order(),
            totals_fit(merged(old(self)@, other@)),
        ensures
            r.wf(),
            r.spec_order() == old(self).spec_order(),
            r@ == merged(old(self)@, other@),
            *final(self) == *final(r),
    {
        let ghost a = self@;
        let ghost t = other.table@;
        proof {
            lemma_table_valid_wf(self.order, self.table@);
            lemma_table_valid_wf(other.order, t);
        }
        if self.table.len() == 0 {
            proof {
                assert(table_pairs(self.table@) =~= Seq::<(NodeModel<T::V>, LinkModel<T::V>)>::empty());
                assert(a =~= TableModel::<T::V>::empty());
                lemma_merged_empty(other@);
            }
            self.table = copy_table(&other.table);
            proof {
                let r = self.table@;
                assert(keys_unique(table_pairs(r)));
                assert forall|i: int| 0 <= i < r.len() implies (#[trigger] r[i]).0@.len() == self.order
                    && link_valid(r[i].1@) by {
                    assert(table_valid_entry(t[i]));
                }
            }
            return self;
        }
        proof {
            assert(t.take(0) =~= Seq::<(Node<T>, Link<T>)>::empty());
            assert(table_pairs(t.take(0)) =~= Seq::<(NodeModel<T::V>, LinkModel<T::V>)>::empty());
            assert(partial_model(t, 0, 0) =~= TableModel::<T::V>::empty());
            lemma_merged_empty_right(a);
        }
        let mut i: usize = 0;
        while i < other.table.len()
            invariant
                self.wf(),
                other.wf(),
                self.order == other.order,
                t == other.table@,
                table_wf(a, self.order as nat),
                table_wf(other@, other.order as nat),
                other@ == table_model(t),
                totals_fit(merged(a, other@)),
                i <= t.len(),
                self@ == merged(a, partial_model(t, i as int, 0)),
            decreases t.len() - i,
        {
            let mut j: usize = 0;
            while j < other.table[i].1.len()
                invariant
                    self.wf(),
                    other.wf(),
                    self.order == other.order,
                    t == other.table@,
                    table_wf(a, self.order as nat),
                    table_wf(other@, other.order as nat),
                    other@ == table_model(t),
                    totals_fit(merged(a, other@)),
                    i < t.len(),
                    j <= t[i as int].1@.len(),
                    self@ == merged(a, partial_model(t, i as int, j as int)),
                decreases t[i as int].1@.len() - j,
            {
                proof {
                    let n = t[i as int].0.deep_view();
                    let x = t[i as int].1@[j as int].0.deep_view();
                    let w = t[i as int].1@[j as int].1 as nat;
                    let pm = partial_model(t, i as int, j as int);
                    lemma_partial_step(other.order, t, i as int, j as int);
                    lemma_merged_add_weight(a, pm, n, x, w);
                    lemma_table_valid_wf(self.order, self.table@);
                    lemma_table_wf_links_finite(self@, self.order as nat);
                    lemma_table_wf_links_finite(a, self.order as nat);
                    lemma_table_wf_links_finite(other@, self.order as nat);
                    lemma_add_weight_total(merged(a, pm), n, x, w);
                    lemma_partial_sub(other.order, t, i as int, j + 1);
                    lemma_merged_totals_le(a, partial_model(t, i as int, j + 1), other@);
                    lemma_pairs_to_map_index(table_pairs(t), i as int);
                    assert(merged(a, other@).contains_key(n));
                    assert(t[i as int].1@[j as int].1 >= 1);
                    let pm_next = partial_model(t, i as int, j as int + 1);
                    assert(pm_next == add_weight(pm, n, x, w));
                    assert(node_total(merged(a, pm_next), n) == node_total(merged(a, pm), n) + w);
                    assert(node_total(merged(a, pm_next), n) <= node_total(merged(a, other@), n));
                    assert(node_total(merged(a, other@), n) <= u32::MAX);
                    assert(self@ == merged(a, pm));
                    assert(map_sum(links_of(self@, n)) + w <= u32::MAX);
                }
                self.update_link_weight(&other.table[i].0, &other.table[i].1[j].0, other.table[i].1[j].1);
                j = j + 1;
            }
            proof {
                lemma_partial_next(other.order, t, i as int);
            }
            i = i + 1;
        }
        proof {
            assert(t.take(t.len() as int) =~= t);
        }
        self
    }

    /// Generates a sequence with no limit on its length.
    pub fn generate(&self) -> (r: Vec<T>)
        requires
            self.wf(),
        ensures
            self@ == TableModel::<T::V>::empty() ==> r@.len() == 0,
            self@ != TableModel::<T::V>::empty() ==> exists|start: NodeModel<T::V>|
                #[trigger] self@.contains_key(start) && walk_ok(
                    self@,
                    self.spec_order(),
                    start,
                    -1,
                    r.deep_view(),
                ),
    {
        self.generate_limit(-1)
    }

    /// Generates a sequence by a weighted random walk from a node drawn
    /// uniformly among the chain's nodes, stopping once `max` tokens have
    /// been produced when `max > 0`.
    pub fn generate_limit(&self, max: isize) -> (r: Vec<T>)
        requires
            self.wf(),
        ensures
            self@ == TableModel::<T::V>::empty() ==> r@.len() == 0,
            self@ != TableModel::<T::V>::empty() ==> exists|start: NodeModel<T::V>|
                #[trigger] self@.contains_key(start) && walk_ok(
                    self@,
                    self.spec_order(),
                    start,
                    max as int,
                    r.deep_view(),
                ),
    {
        match self.choose_random_node() {
            Some(start) => {
                let r = self.generate_from(&start, max);
                proof {
                    assert(self@.contains_key(start.deep_view()));
                }
                r
            },
            None => Vec::new(),
        }
    }

    /// Generates a sequence by a weighted random walk from `start`: a start
    /// holding a boundary marker gives its own tokens; otherwise the walk
    /// begins with the start's tokens and draws each next token from the
    /// link table of the last `order` tokens, until the boundary marker is
    /// drawn, the window is not a node, or `max > 0` tokens have been
    /// produced.
    pub fn generate_from(&self, start: &Node<T>, max: isize) -> (r: Vec<T>)
        requires
            self.wf(),
            start@.len() == self.spec_order(),
        ensures
            walk_ok(self@, self.spec_order(), start.deep_view(), max as int, r.deep_view()),
    {
        let order = self.order;
        let ghost sv = start.deep_view();
        let mut k: usize = 0;
        while k < start.len()
            invariant
                k <= start@.len(),
                sv == start.deep_view(),
                forall|q: int| 0 <= q < k ==> (#[trigger] start@[q]) is Some,
            decreases start@.len() - k,
        {
            if start[k].is_none() {
                proof {
                    assert(sv[k as int] == None::<T::V>);
                    assert(sv.contains(None));
                }
                let mut out: Vec<T> = Vec::new();
                let mut q: usize = 0;
                while q < start.len()
                    invariant
                        q <= start@.len(),
                        sv == start.deep_view(),
                        out.deep_view() == node_tokens(sv.take(q as int)),
                    decreases start@.len() - q,
                {
                    let ghost before = out.deep_view();
                    proof {
                        assert(sv.take(q + 1).drop_last() =~= sv.take(q as int));
                    }
                    match &start[q] {
                        Some(t) => {
                            out.push(t.copy_token());
                            proof {
                                assert(out.deep_view() =~= before.push(t.deep_view()));
                            }
                        },
                        None => {},
                    }
                    q = q + 1;
                }
                proof {
                    assert(sv.take(start@.len() as int) =~= sv);
                    assert(walk_ok(self@, order as nat, sv, max as int, out.deep_view()));
                }
                return out;
            }
            k = k + 1;
        }
        proof {
            if sv.contains(None) {
                let q = choose|q: int| 0 <= q < sv.len() && sv[q] == None::<T::V>;
                assert(start@[q] is Some);
            }
        }
        let mut result: Vec<T> = Vec::new();
        let mut curs: Node<T> = Vec::new();
        let mut k: usize = 0;
        while k < start.len()
            invariant
                k <= start@.len(),
                sv == start.deep_view(),
                forall|q: int| 0 <= q < start@.len() ==> (#[trigger] start@[q]) is Some,
                result@.len() == k,
                curs@.len() == k,
                slots_of(result.deep_view()) == sv.take(k as int),
                curs.deep_view() == sv.take(k as int),
            decreases start@.len() - k,
        {
            let ghost r0 = result.deep_view();
            let ghost c0 = curs.deep_view();
            match &start[k] {
                Some(t) => {
                    result.push(t.copy_token());
                    curs.push(Some(t.copy_token()));
                    proof {
                        assert(result.deep_view() =~= r0.push(t.deep_view()));
                        assert(slots_of(result.deep_view()) =~= sv.take(k + 1));
                        assert(curs.deep_view() =~= sv.take(k + 1));
                    }
                },
                None => {},
            }
            k = k + 1;
        }
        proof {
            self.lemma_wf();
            assert(sv.len() == order);
            assert(sv.take(order as int) =~= sv);
            assert(result.deep_view().take(order as int) =~= result.deep_view());
            assert(window_of(result.deep_view(), order as nat, order as int) =~= sv);
        }
        loop
            invariant_except_break
                max > 0 && result@.len() > order ==> result@.len() < max,
            invariant
                self.wf(),
                order == self.order,
                order >= 1,
                !sv.contains(None),
                result@.len() >= order,
                curs@.len() == order,
                slots_of(result.deep_view().take(order as int)) == sv,
                curs.deep_view() == window_of(result.deep_view(), order as nat, result@.len() as int),
                forall|j: int|
                    order <= j < result@.len() ==> weight(
                        self@,
                        window_of(result.deep_view(), order as nat, j),
                        Some(result.deep_view()[j]),
                    ) > 0,
            ensures
                walk_ok(self@, order as nat, sv, max as int, result.deep_view()),
            decreases usize::MAX - result.len(),
        {
            let ghost r0 = result.deep_view();
            let ghost c0 = curs.deep_view();
            match self.choose_random_link(&curs) {
                Some(t) => {
                    let ghost tv = t.deep_view();
                    let t2 = t.copy_token();
                    result.push(t);
                    curs.remove(0);
                    curs.push(Some(t2));
                    proof {
                        let r1 = result.deep_view();
                        assert(r1 =~= r0.push(tv));
                        assert(curs.deep_view() =~= c0.drop_first().push(Some(tv)));
                        assert(window_of(r1, order as nat, r0.len() as int) =~= c0);
                        assert(r1.take(order as int) =~= r0.take(order as int));
                        assert(curs.deep_view() =~= window_of(r1, order as nat, r1.len() as int));
                        assert forall|j: int|
                            order <= j < r1.len() implies weight(
                                self@,
                                window_of(r1, order as nat, j),
                                Some(r1[j]),
                            ) > 0 by {
                            if j < r0.len() {
                                assert(window_of(r1, order as nat, j) =~= window_of(r0, order as nat, j));
                                assert(r1[j] == r0[j]);
                            } else {
                                assert(r1[j] == tv);
                            }
                        }
                    }
                    if max > 0 && result.len() >= max as usize {
                        break;
                    }
                },
                None => {
                    break;
                },
            }
        }
        result
    }

    /// A node drawn uniformly among the chain's nodes; `None` when the chain
    /// is empty.
    fn choose_random_node(&self) -> (r: Option<Node<T>>)
        requires
            self.wf(),
        ensures
            r is None <==> self@ == TableModel::<T::V>::empty(),
            r matches Some(n) ==> self@.contains_key(n.deep_view()) && n@.len() == self.order,
    {
        if self.is_empty() {
            return None;
        }
        let i = random_below(self.table.len());
        let n = copy_node(&self.table[i].0);
        proof {
            lemma_pairs_to_map_index(table_pairs(self.table@), i as int);
            assert(n@.len() == n.deep_view().len());
            assert(self.table@[i as int].0@.len() == self.table@[i as int].0.deep_view().len());
        }
        proof {
            assert(self@ != TableModel::<T::V>::empty()) by {
                assert(self@.contains_key(n.deep_view()));
            }
        }
        Some(n)
    }

    /// The next value drawn from the link table of `node`, each value with
    /// probability proportional to its weight; `None` when the boundary
    /// marker is drawn or `node` is not in the chain.
    pub(crate) fn choose_random_link(&self, node: &Node<T>) -> (r: Option<T>)
        requires
            self.wf(),
        ensures
            match r {
                Some(t) => weight(self@, node.deep_view(), Some(t.deep_view())) > 0,
                None => !self@.contains_key(node.deep_view()) || weight(self@, node.deep_view(), None) > 0,
            },
    {
        let i = match self.find_node(node) {
            Some(i) => i,
            None => {
                return None;
            },
        };
        let ghost l = self.table@[i as int].1@;
        let links = &self.table[i].1;
        let mut ws: Vec<u32> = Vec::new();
        let mut j: usize = 0;
        while j < links.len()
            invariant
                l == links@,
                j <= l.len(),
                ws@ == link_weights(l).take(j as int),
            decreases l.len() - j,
        {
            ws.push(links[j].1);
            proof {
                assert(ws@ =~= link_weights(l).take(j + 1));
            }
            j = j + 1;
        }
        proof {
            assert(ws@ =~= link_weights(l));
            lemma_link_weights_sum(l);
            assert(link_valid(l));
            assert(l[l.len() - 1].1 >= 1);
            assert(link_pairs(l).last().1 >= 1);
            assert(sum_values(link_pairs(l)) >= 1);
        }
        let k = random_weighted_index(&ws);
        proof {
            lemma_pairs_to_map_index(table_pairs(self.table@), i as int);
            lemma_pairs_to_map_index(link_pairs(l), k as int);
            assert(ws@[k as int] == l[k as int].1);
        }
        copy_slot(&links[k].0)
    }

    /// Adds one to the weight of the transition from `node` to `next`.
    fn update_link(&mut self, node: &Node<T>, next: &Option<T>)
        requires
            old(self).wf(),
            node@.len() == old(self).order,
            node_total(old(self)@, node.deep_view()) + 1 <= u32::MAX,
        ensures
            final(self).wf(),
            final(self).order == old(self).order,
            final(self)@ == add_weight(old(self)@, node.deep_view(), next.deep_view(), 1),
    {
        self.update_link_weight(node, next, 1);
    }

    /// Adds `w` to the weight of the transition from `node` to `next`,
    /// creating the node and the link when absent.
    fn update_link_weight(&mut self, node: &Node<T>, next: &Option<T>, w: u32)
        requires
            old(self).wf(),
            node@.len() == old(self).order,
            w >= 1,
            map_sum(links_of(old(self)@, node.deep_view())) + w <= u32::MAX,
        ensures
            final(self).wf(),
            final(self).order == old(self).order,
            final(self)@ == add_weight(old(self)@, node.deep_view(), next.deep_view(), w as nat),
    {
        let ghost m = self@;
        let ghost nv = node.deep_view();
        let ghost xv = next.deep_view();
        let ghost t = self.table@;
        match self.find_node(node) {
            Some(i) => {
                let ghost l = t[i as int].1@;
                proof {
                    lemma_pairs_to_map_index(table_pairs(t), i as int);
                    lemma_link_valid_model(l);
                }
                match find_link(&self.table[i].1, next) {
                    Some(j) => {
                        proof {
                            lemma_pairs_to_map_index(link_pairs(l), j as int);
                            lemma_map_sum_remove(link_model(l), xv);
                        }
                        let v = self.table[i].1[j].1 + w;
                        self.table[i].1[j].1 = v;
                        proof {
                            let l2 = self.table@[i as int].1@;
                            assert(l2 == l.update(j as int, (l[j as int].0, v)));
                            assert(link_pairs(l2) =~= link_pairs(l).update(j as int, (xv, v as nat)));
                            lemma_pairs_to_map_update(link_pairs(l), j as int, v as nat);
                            lemma_map_sum_insert(link_model(l), xv, v as nat);
                            lemma_map_sum_pairs(link_pairs(l2));
                            assert(self.table@ == t.update(i as int, (t[i as int].0, self.table@[i as int].1)));
                            lemma_replace_links(self.order, t, i as int, self.table@[i as int].1);
                        }
                    },
                    None => {
                        let s = copy_slot(next);
                        self.table[i].1.push((s, w));
                        proof {
                            let l2 = self.table@[i as int].1@;
                            assert(link_pairs(l2) =~= link_pairs(l).push((xv, w as nat)));
                            assert(link_pairs(l2).drop_last() =~= link_pairs(l));
                            lemma_pairs_to_map_dom(link_pairs(l));
                            assert forall|a: int, b: int|
                                0 <= a < link_pairs(l2).len() && 0 <= b < link_pairs(l2).len() && a != b implies
                                #[trigger] link_pairs(l2)[a].0 != #[trigger] link_pairs(l2)[b].0 by {
                                if a < l.len() && b < l.len() {
                                    assert(link_pairs(l)[a].0 != link_pairs(l)[b].0);
                                } else if a < l.len() {
                                    assert(link_pairs(l)[a].0 != xv);
                                } else {
                                    assert(link_pairs(l)[b].0 != xv);
                                }
                            }
                            assert(self.table@ == t.update(i as int, (t[i as int].0, self.table@[i as int].1)));
                            lemma_replace_links(self.order, t, i as int, self.table@[i as int].1);
                        }
                    },
                }
            },
            None => {
                let s = copy_slot(next);
                let mut links: Link<T> = Vec::new();
                links.push((s, w));
                let n = copy_node(node);
                proof {
                    assert(link_pairs(links@) =~= seq![(xv, w as nat)]);
                    assert(link_pairs(links@).drop_last() =~= Seq::<(Option<T::V>, nat)>::empty());
                    assert(pairs_to_map(Seq::<(Option<T::V>, nat)>::empty()) == Map::<Option<T::V>, nat>::empty());
                    assert(n.deep_view().len() == node.deep_view().len());
                    assert(links_of(m, nv) =~= Map::<Option<T::V>, nat>::empty());
                    assert(map_sum(Map::<Option<T::V>, nat>::empty()) == 0);
                    assert(sum_values(Seq::<(Option<T::V>, nat)>::empty()) == 0);
                    assert(sum_values(link_pairs(links@)) == w);
                    assert(links@[0].1 >= 1);
                    assert(link_model(links@) =~= Map::<Option<T::V>, nat>::empty().insert(xv, w as nat));
                    lemma_push_node(self.order, t, n, links);
                }
                self.table.push((n, links));
                proof {
                    assert(links_of(m, nv) =~= Map::<Option<T::V>, nat>::empty());
                }
            },
        }
    }

    /// The position of `node` in the stored table.
    fn find_node(&self, node: &Node<T>) -> (r: Option<usize>)
        ensures
            match r {
                Some(i) => i < self.table@.len() && self.table@[i as int].0.deep_view()
                    == node.deep_view(),
                None => !self@.contains_key(node.deep_view()),
            },
    {
        let mut i: usize = 0;
        while i < self.table.len()
            invariant
                i <= self.table@.len(),
                forall|k: int| 0 <= k < i ==> self.table@[k].0.deep_view() != node.deep_view(),
            decreases self.table@.len() - i,
        {
            if same_node(&self.table[i].0, node) {
                return Some(i);
            }
            i = i + 1;
        }
        proof {
            let p = table_pairs(self.table@);
            lemma_pairs_to_map_dom(p);
            if self@.contains_key(node.deep_view()) {
                let k = choose|k: int| 0 <= k < p.len() && p[k].0 == node.deep_view();
                assert(self.table@[k].0.deep_view() == node.deep_view());
            }
        }
        None
    }
}

} // verus!
