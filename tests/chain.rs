use markov_chain::{Chain, Link, Node};

type Table = Vec<(Node<u32>, Link<u32>)>;

fn node(key: &[u32]) -> Node<u32> {
    key.iter().map(|k| Some(*k)).collect()
}

fn get_link<'a>(chain: &'a Chain<u32>, key: &[u32]) -> &'a Link<u32> {
    let key = node(key);
    assert_eq!(key.len(), chain.order());
    let found = chain.chain().iter().find(|(n, _)| *n == key);
    assert!(found.is_some());
    &found.unwrap().1
}

fn link_weight(link: &Link<u32>, next: Option<u32>, weight: u32) {
    let found = link.iter().find(|(x, _)| *x == next);
    assert!(found.is_some());
    assert_eq!(found.unwrap().1, weight);
}

fn three_sequences(order: usize) -> Chain<u32> {
    let mut chain = Chain::<u32>::new(order);
    chain.train(vec![1, 2, 3]).train(vec![2, 3, 4]).train(vec![1, 3, 4]);
    chain
}

#[test]
fn test_order1_training() {
    let chain = three_sequences(1);
    let link = get_link(&chain, &[1u32]);
    link_weight(link, Some(2u32), 1);
    link_weight(link, Some(3u32), 1);

    let link = get_link(&chain, &[2u32]);
    link_weight(link, Some(3u32), 2);

    let link = get_link(&chain, &[3u32]);
    link_weight(link, None, 1);
    link_weight(link, Some(4u32), 2);

    let link = get_link(&chain, &[4u32]);
    link_weight(link, None, 2);
}

#[test]
fn test_order2_training() {
    let chain = three_sequences(2);
    let link = get_link(&chain, &[1u32, 2u32]);
    link_weight(link, Some(3u32), 1);

    let link = get_link(&chain, &[2u32, 3u32]);
    link_weight(link, None, 1);
    link_weight(link, Some(4u32), 1);

    let link = get_link(&chain, &[3u32, 4u32]);
    link_weight(link, None, 2);

    let link = get_link(&chain, &[1u32, 3u32]);
    link_weight(link, Some(4u32), 1);
}

#[test]
fn test_order3_training() {
    let mut chain = Chain::<u32>::new(3);
    chain.train(vec![1, 2, 3, 4, 1, 2, 3, 4]);

    let link = get_link(&chain, &[1u32, 2u32, 3u32]);
    link_weight(link, Some(4u32), 2);

    let link = get_link(&chain, &[2u32, 3u32, 4u32]);
    link_weight(link, Some(1u32), 1);
    link_weight(link, None, 1);

    let link = get_link(&chain, &[3u32, 4u32, 1u32]);
    link_weight(link, Some(2u32), 1);

    let link = get_link(&chain, &[4u32, 1u32, 2u32]);
    link_weight(link, Some(3u32), 1);
}

#[test]
fn test_cbor_serialize() {
    let chain = three_sequences(1);
    let cbor_vec = serde_cbor::to_vec(&(chain.order(), chain.chain()));
    assert!(cbor_vec.is_ok());
    let (order, table): (usize, Table) = serde_cbor::from_slice(&cbor_vec.unwrap()).unwrap();
    let de = Chain::from_table(order, table);
    assert!(de.unwrap().same_chain(&chain));
}

#[test]
fn test_yaml_serialize() {
    let chain = three_sequences(1);
    let yaml_str = serde_yaml::to_string(&(chain.order(), chain.chain()));
    assert!(yaml_str.is_ok());
    let (order, table): (usize, Table) = serde_yaml::from_str(&yaml_str.unwrap()).unwrap();
    let de = Chain::from_table(order, table);
    assert!(de.unwrap().same_chain(&chain));
}

#[test]
fn order1_weights_of_three_sequences() {
    let chain = three_sequences(1);
    assert_eq!(chain.weight_of(&node(&[1]), &Some(2)), 1);
    assert_eq!(chain.weight_of(&node(&[1]), &Some(3)), 1);
    assert_eq!(chain.weight_of(&node(&[2]), &Some(3)), 2);
    assert_eq!(chain.weight_of(&node(&[3]), &None), 1);
    assert_eq!(chain.weight_of(&node(&[3]), &Some(4)), 2);
    assert_eq!(chain.weight_of(&node(&[4]), &None), 2);
    assert_eq!(chain.weight_of(&vec![None], &Some(1)), 2);
    assert_eq!(chain.weight_of(&vec![None], &Some(2)), 1);
    assert_eq!(chain.weight_of(&node(&[1]), &Some(4)), 0);
    assert_eq!(chain.weight_of(&node(&[9]), &None), 0);
    assert_eq!(chain.chain().len(), 5);
}

#[test]
fn new_chain_is_empty() {
    let chain = Chain::<u32>::new(2);
    assert!(chain.is_empty());
    assert_eq!(chain.order(), 2);
    assert!(chain.chain().is_empty());
    assert_eq!(chain.headroom(), u32::MAX);
}

#[test]
fn training_on_empty_sequence_changes_nothing() {
    let mut chain = Chain::<u32>::new(1);
    chain.train(vec![]);
    assert!(chain.is_empty());
    chain.train(vec![7]).train(vec![]);
    assert_eq!(chain.chain().len(), 2);
}

#[test]
fn short_sequence_is_padded_to_the_order() {
    let mut chain = Chain::<u32>::new(3);
    chain.train(vec![5]);
    assert_eq!(chain.weight_of(&vec![None, None, None], &Some(5)), 1);
    assert_eq!(chain.weight_of(&vec![None, None, Some(5)], &None), 1);
    assert_eq!(chain.weight_of(&vec![None, Some(5), None], &None), 1);
    assert_eq!(chain.weight_of(&vec![Some(5), None, None], &None), 1);
    assert_eq!(chain.chain().len(), 4);
}

#[test]
fn sequence_of_length_l_gives_l_plus_one_observations() {
    let mut chain = Chain::<u32>::new(2);
    chain.train(vec![1, 2, 3, 4]);
    let total: u32 = chain.chain().iter().map(|(_, l)| l.iter().map(|(_, w)| *w).sum::<u32>()).sum();
    assert_eq!(total, 5);
    assert_eq!(chain.weight_of(&vec![None, None], &Some(1)), 1);
    assert_eq!(chain.weight_of(&vec![None, Some(1)], &Some(2)), 1);
    assert_eq!(chain.weight_of(&node(&[3, 4]), &None), 1);
}

#[test]
fn headroom_is_the_least_margin() {
    let mut chain = Chain::<u32>::new(1);
    chain.train(vec![1, 1, 1]);
    // node [1] is followed by 1 twice and by the boundary once
    assert_eq!(chain.headroom(), u32::MAX - 3);
}

#[test]
fn merge_into_empty_adopts_the_other_table() {
    let other = three_sequences(1);
    let mut chain = Chain::<u32>::new(1);
    chain.merge(&other);
    assert_eq!(chain.chain(), other.chain());
}

#[test]
fn merge_sums_weights() {
    let mut a = Chain::<u32>::new(1);
    a.train(vec![1, 2, 3]);
    let mut b = Chain::<u32>::new(1);
    b.train(vec![2, 3, 4, 5, 6]);
    b.merge(&a);
    assert_eq!(b.weight_of(&node(&[2]), &Some(3)), 2);
    assert_eq!(b.weight_of(&node(&[1]), &Some(2)), 1);
    assert_eq!(b.weight_of(&node(&[3]), &Some(4)), 1);
    assert_eq!(b.weight_of(&node(&[3]), &None), 1);
    assert_eq!(b.weight_of(&vec![None], &Some(1)), 1);
    assert_eq!(b.weight_of(&vec![None], &Some(2)), 1);
}

#[test]
fn merging_twice_double_counts() {
    let a = three_sequences(1);
    let mut b = Chain::<u32>::new(1);
    b.merge(&a).merge(&a);
    assert_eq!(b.weight_of(&node(&[2]), &Some(3)), 4);
    assert_eq!(b.weight_of(&node(&[4]), &None), 4);
}

fn all_weights(chain: &Chain<u32>) -> Vec<(Node<u32>, Option<u32>, u32)> {
    let mut out = Vec::new();
    for (n, l) in chain.chain() {
        for (x, w) in l {
            out.push((n.clone(), *x, *w));
        }
    }
    out.sort();
    out
}

#[test]
fn merge_is_associative_in_weights() {
    let mut a = Chain::<u32>::new(2);
    a.train(vec![1, 2, 3]);
    let mut b = Chain::<u32>::new(2);
    b.train(vec![2, 3, 4]).train(vec![1, 2]);
    let mut c = Chain::<u32>::new(2);
    c.train(vec![1, 2, 3, 1, 2]);

    let mut left = Chain::<u32>::new(2);
    left.merge(&a).merge(&b).merge(&c);

    let mut bc = Chain::<u32>::new(2);
    bc.merge(&b).merge(&c);
    let mut right = Chain::<u32>::new(2);
    right.merge(&a).merge(&bc);

    assert_eq!(all_weights(&left), all_weights(&right));
    assert_eq!(left.weight_of(&node(&[1, 2]), &Some(3)), 2);
    assert_eq!(left.weight_of(&node(&[1, 2]), &None), 2);
}

#[test]
fn from_table_rejects_invalid_tables() {
    let good: Table = vec![(vec![None], vec![(Some(1), 1)]), (vec![Some(1)], vec![(None, 1)])];
    assert!(Chain::from_table(1, good.clone()).is_some());
    assert!(Chain::from_table(0, good.clone()).is_none());
    assert!(Chain::from_table(2, good).is_none());
    let duplicate_node: Table = vec![(vec![None], vec![(Some(1), 1)]), (vec![None], vec![(Some(2), 1)])];
    assert!(Chain::from_table(1, duplicate_node).is_none());
    let duplicate_next: Table = vec![(vec![None], vec![(Some(1), 1), (Some(1), 2)])];
    assert!(Chain::from_table(1, duplicate_next).is_none());
    let empty_link: Table = vec![(vec![None], vec![])];
    assert!(Chain::from_table(1, empty_link).is_none());
    let zero_weight: Table = vec![(vec![None], vec![(Some(1), 0)])];
    assert!(Chain::from_table(1, zero_weight).is_none());
    let too_heavy: Table = vec![(vec![None], vec![(Some(1), u32::MAX), (Some(2), 1)])];
    assert!(Chain::from_table(1, too_heavy).is_none());
    let full: Table = vec![(vec![None], vec![(Some(1), u32::MAX - 1), (Some(2), 1)])];
    let chain = Chain::from_table(1, full).unwrap();
    assert_eq!(chain.headroom(), 0);
}

#[test]
fn generate_on_empty_chain_is_empty() {
    let chain = Chain::<u32>::new(1);
    assert!(chain.generate().is_empty());
    assert!(chain.generate_limit(3).is_empty());
}

#[test]
fn generate_follows_trained_transitions() {
    let mut chain = Chain::<u32>::new(1);
    chain.train(vec![1, 2, 3]);
    for _ in 0..50 {
        let out = chain.generate();
        assert!(
            out.is_empty() || out == vec![1, 2, 3] || out == vec![2, 3] || out == vec![3],
            "unexpected {:?}",
            out
        );
    }
}

#[test]
fn generate_limit_stops_at_the_limit() {
    let mut chain = Chain::<u32>::new(1);
    chain.train(vec![1, 2, 3]);
    for _ in 0..50 {
        let out = chain.generate_limit(2);
        assert!(
            out.is_empty() || out == vec![1, 2] || out == vec![2, 3] || out == vec![3],
            "unexpected {:?}",
            out
        );
    }
}

#[test]
fn generated_transitions_have_positive_weight() {
    let s: Vec<u32> = vec![4, 1, 4, 2, 4, 1, 3, 3, 1];
    for order in 1..4usize {
        let mut chain = Chain::<u32>::new(order);
        chain.train(s.clone());
        for _ in 0..30 {
            let out = chain.generate_limit(s.len() as isize + 1);
            if out.len() < order {
                continue;
            }
            for j in order..out.len() {
                let window: Node<u32> = out[j - order..j].iter().map(|t| Some(*t)).collect();
                assert!(chain.weight_of(&window, &Some(out[j])) > 0);
            }
            assert!(out.len() <= s.len() + 1);
        }
    }
}

#[test]
fn start_with_boundary_returns_its_tokens() {
    let mut chain = Chain::<u32>::new(3);
    chain.train(vec![8, 9]);
    for _ in 0..30 {
        let out = chain.generate();
        assert!(out.is_empty() || out == vec![8] || out == vec![8, 9] || out == vec![9], "unexpected {:?}", out);
    }
}

#[test]
fn generate_from_a_given_start() {
    let mut chain = Chain::<u32>::new(1);
    chain.train(vec![1, 2, 3]);
    assert_eq!(chain.generate_from(&node(&[1]), -1), vec![1, 2, 3]);
    assert_eq!(chain.generate_from(&node(&[2]), 0), vec![2, 3]);
    assert_eq!(chain.generate_from(&node(&[1]), 2), vec![1, 2]);
    assert_eq!(chain.generate_from(&node(&[1]), 1), vec![1, 2]);
    assert_eq!(chain.generate_from(&vec![None], -1), Vec::<u32>::new());
    assert_eq!(chain.generate_from(&node(&[7]), -1), vec![7]);
}

#[test]
fn generate_from_a_start_with_boundaries_keeps_its_tokens() {
    let mut chain = Chain::<u32>::new(3);
    chain.train(vec![8, 9]);
    assert_eq!(chain.generate_from(&vec![None, Some(8), Some(9)], -1), vec![8, 9]);
    assert_eq!(chain.generate_from(&vec![Some(8), None, Some(9)], -1), vec![8, 9]);
}

#[test]
fn generate_from_stops_at_the_limit_after_the_start() {
    let mut chain = Chain::<u32>::new(2);
    chain.train(vec![1, 2, 3, 4, 5]);
    assert_eq!(chain.generate_from(&node(&[1, 2]), -1), vec![1, 2, 3, 4, 5]);
    assert_eq!(chain.generate_from(&node(&[1, 2]), 4), vec![1, 2, 3, 4]);
    assert_eq!(chain.generate_from(&node(&[1, 2]), 1), vec![1, 2, 3]);
}

#[test]
fn merge_is_commutative_in_weights() {
    let mut a = Chain::<u32>::new(1);
    a.train(vec![1, 2, 1, 3]);
    let mut b = Chain::<u32>::new(1);
    b.train(vec![3, 1, 2]);
    let mut ab = Chain::<u32>::new(1);
    ab.merge(&a).merge(&b);
    let mut ba = Chain::<u32>::new(1);
    ba.merge(&b).merge(&a);
    assert_eq!(all_weights(&ab), all_weights(&ba));
    assert_eq!(ab.weight_of(&node(&[1]), &Some(2)), 2);
}

#[test]
fn same_chain_ignores_storage_order() {
    let a: Table = vec![(vec![None], vec![(Some(1), 2), (Some(2), 1)]), (vec![Some(1)], vec![(None, 3)])];
    let b: Table = vec![(vec![Some(1)], vec![(None, 3)]), (vec![None], vec![(Some(2), 1), (Some(1), 2)])];
    let c: Table = vec![(vec![Some(1)], vec![(None, 3)]), (vec![None], vec![(Some(2), 1), (Some(1), 3)])];
    let ca = Chain::from_table(1, a.clone()).unwrap();
    let cb = Chain::from_table(1, b).unwrap();
    let cc = Chain::from_table(1, c).unwrap();
    assert!(ca.same_chain(&cb));
    assert!(cb.same_chain(&ca));
    assert!(!ca.same_chain(&cc));
    let longer: Table = vec![(vec![None, None], vec![(Some(1), 1)])];
    assert!(!ca.same_chain(&Chain::from_table(2, longer).unwrap()));
    assert!(!ca.same_chain(&Chain::<u32>::new(1)));
}
