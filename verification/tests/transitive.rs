use pm4wasm::algorithms::transitive::{
    cluster_order_from_efg, generate_initial_order_from_efg, is_valid_order, merge_groups,
    transitive_closure,
};
use pm4wasm::binary_relation::BinaryRelation;

fn chain(n: usize) -> BinaryRelation {
    let mut r = BinaryRelation::new(n);
    for i in 0..(n - 1) {
        r.add_edge(i, i + 1);
    }
    r
}

#[test]
fn closure_of_chain() {
    let r = chain(4);
    let closed = transitive_closure(&r);
    assert!(closed.is_edge(0, 3));
    assert!(closed.is_transitive());
}

#[test]
fn initial_order_from_efg() {
    let mut efg = BinaryRelation::new(3);
    efg.add_edge(0, 1);
    efg.add_edge(1, 2);
    let order = generate_initial_order_from_efg(3, &efg);
    assert!(order.is_edge(0, 1));
    assert!(order.is_edge(1, 2));
    assert!(order.is_edge(0, 2));
    assert!(order.is_strict_partial_order());
}

#[test]
fn valid_order_with_bidirectional_efg() {
    let mut order = BinaryRelation::new(3);
    order.add_edge(0, 1);
    order.add_edge(0, 2);
    order.add_edge(1, 2);
    let mut efg = BinaryRelation::new(3);
    efg.add_edge(0, 1);
    efg.add_edge(1, 2);
    efg.add_edge(0, 2);
    assert!(is_valid_order(&order, &efg));
}

#[test]
fn invalid_order_bidirectional_efg_but_ordered() {
    let mut order = BinaryRelation::new(2);
    order.add_edge(0, 1);
    let mut efg = BinaryRelation::new(2);
    efg.add_edge(0, 1);
    efg.add_edge(1, 0);
    assert!(!is_valid_order(&order, &efg));
}

#[test]
fn cluster_order_basic() {
    let mut efg = BinaryRelation::new(4);
    for i in 0..2 {
        for j in 2..4 {
            efg.add_edge(i, j);
        }
    }
    let clusters = vec![vec![0, 1], vec![2, 3]];
    let order = cluster_order_from_efg(&clusters, &efg);
    assert!(order.is_edge(0, 1));
    assert!(!order.is_edge(1, 0));
}

#[test]
fn merge_groups_joins_higher_into_lower() {
    let mut groups = vec![vec![0], vec![1, 2], vec![3]];
    merge_groups(&mut groups, 2, 0);
    assert_eq!(groups, vec![vec![0, 3], vec![1, 2]]);
    merge_groups(&mut groups, 1, 1);
    assert_eq!(groups, vec![vec![0, 3], vec![1, 2]]);
}

#[test]
fn cluster_order_skips_only_backward_pairs() {
    // clusters 0 -> 1 both ways; 0 -> 2 one way: only 0 -> 2 is ordered.
    let mut efg = BinaryRelation::new(3);
    efg.add_edge(0, 1);
    efg.add_edge(1, 0);
    efg.add_edge(0, 2);
    let clusters = vec![vec![0], vec![1], vec![2]];
    let order = cluster_order_from_efg(&clusters, &efg);
    assert_eq!(order.n, 3);
    assert!(!order.is_edge(0, 1));
    assert!(!order.is_edge(1, 0));
    assert!(order.is_edge(0, 2));
    assert!(!order.is_edge(1, 2));
    assert!(!order.is_edge(2, 0));
}
