use pm4wasm::binary_relation::BinaryRelation;

#[test]
fn empty_is_strict_partial_order() {
    let r = BinaryRelation::new(0);
    assert!(r.is_strict_partial_order());
}

#[test]
fn single_node_no_edges() {
    let r = BinaryRelation::new(1);
    assert!(r.is_irreflexive());
    assert!(r.is_transitive());
    assert_eq!(r.get_start_nodes(), vec![0]);
    assert_eq!(r.get_end_nodes(), vec![0]);
}

#[test]
fn add_remove_edge() {
    let mut r = BinaryRelation::new(3);
    r.add_edge(0, 1);
    assert!(r.is_edge(0, 1));
    assert!(!r.is_edge(1, 0));
    r.remove_edge(0, 1);
    assert!(!r.is_edge(0, 1));
}

#[test]
fn is_irreflexive_detects_self_loop() {
    let mut r = BinaryRelation::new(3);
    r.add_edge(1, 1);
    assert!(!r.is_irreflexive());
}

#[test]
fn transitivity_check() {
    let mut r = BinaryRelation::new(3);
    r.add_edge(0, 1);
    r.add_edge(1, 2);
    assert!(!r.is_transitive());
    r.add_edge(0, 2);
    assert!(r.is_transitive());
}

#[test]
fn transitive_closure() {
    let mut r = BinaryRelation::new(3);
    r.add_edge(0, 1);
    r.add_edge(1, 2);
    r.add_transitive_edges();
    assert!(r.is_edge(0, 2));
    assert!(r.is_transitive());
}

#[test]
fn transitive_reduction() {
    let mut r = BinaryRelation::new(3);
    r.add_edge(0, 1);
    r.add_edge(1, 2);
    r.add_edge(0, 2);
    let red = r.get_transitive_reduction();
    assert!(red.is_edge(0, 1));
    assert!(red.is_edge(1, 2));
    assert!(!red.is_edge(0, 2));
}

#[test]
fn start_end_nodes() {
    let mut r = BinaryRelation::new(3);
    r.add_edge(0, 1);
    r.add_edge(1, 2);
    assert_eq!(r.get_start_nodes(), vec![0]);
    assert_eq!(r.get_end_nodes(), vec![2]);
}

#[test]
fn add_node_preserves_edges() {
    let mut r = BinaryRelation::new(2);
    r.add_edge(0, 1);
    let new_id = r.add_node();
    assert_eq!(new_id, 2);
    assert!(r.is_edge(0, 1));
    assert!(!r.is_edge(0, 2));
}

#[test]
fn large_matrix_bit_packing() {
    let mut r = BinaryRelation::new(65);
    r.add_edge(0, 64);
    r.add_edge(64, 32);
    r.add_transitive_edges();
    assert!(r.is_edge(0, 32));
}

#[test]
fn add_node_across_word_boundary_keeps_edges() {
    let mut r = BinaryRelation::new(64);
    r.add_edge(3, 63);
    r.add_edge(63, 0);
    assert_eq!(r.add_node(), 64);
    assert_eq!(r.row_words, 2);
    assert!(r.is_edge(3, 63));
    assert!(r.is_edge(63, 0));
    assert!(!r.is_edge(3, 64));
    assert!(!r.is_edge(64, 3));
}

#[test]
fn edge_list_is_row_major() {
    let mut r = BinaryRelation::new(3);
    r.add_edge(2, 0);
    r.add_edge(0, 2);
    r.add_edge(0, 1);
    assert_eq!(r.edge_list(), vec![(0, 1), (0, 2), (2, 0)]);
}

#[test]
fn removal_keeps_transitivity() {
    let mut r = BinaryRelation::new(3);
    r.add_edge(0, 1);
    r.add_edge(1, 2);
    r.add_edge(0, 2);
    r.remove_edge_without_violating_transitivity(0, 2);
    assert!(!r.is_edge(0, 2));
    assert!(r.is_edge(0, 1));
    assert!(!r.is_edge(1, 2));
    assert!(r.is_transitive());
}

#[test]
fn closure_is_superset_and_transitive() {
    let mut r = BinaryRelation::new(4);
    r.add_edge(0, 1);
    r.add_edge(1, 2);
    r.add_edge(2, 3);
    r.add_transitive_edges();
    for (i, j) in [(0, 1), (0, 2), (0, 3), (1, 2), (1, 3), (2, 3)] {
        assert!(r.is_edge(i, j));
    }
    assert!(!r.is_edge(3, 0));
    assert!(!r.is_edge(1, 0));
}
