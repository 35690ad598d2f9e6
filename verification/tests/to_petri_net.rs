use pm4wasm::conversion::to_petri_net::from_process_tree;
use pm4wasm::process_tree::{ProcessTree, PtOperator};

fn labels(tree: &ProcessTree) -> Vec<Option<String>> {
    from_process_tree(tree).net.transitions.iter().map(|t| t.label.clone()).collect()
}

fn leaf(a: &str) -> ProcessTree {
    ProcessTree::leaf(Some(a.to_string()))
}

#[test]
fn from_process_tree_single_activity() {
    let tree = ProcessTree::leaf(Some("A".to_string()));
    let result = from_process_tree(&tree);
    assert!(result.net.transitions.iter().any(|t| t.label.as_deref() == Some("A")));
}

#[test]
fn from_process_tree_sequence() {
    let tree = ProcessTree::internal(
        PtOperator::Sequence,
        vec![ProcessTree::leaf(Some("A".to_string())), ProcessTree::leaf(Some("B".to_string()))],
    );
    let result = from_process_tree(&tree);
    let labels: Vec<Option<&str>> = result.net.transitions.iter().map(|t| t.label.as_deref()).collect();
    assert!(labels.contains(&Some("A")));
    assert!(labels.contains(&Some("B")));
}

#[test]
fn from_process_tree_xor() {
    let tree = ProcessTree::internal(
        PtOperator::Xor,
        vec![ProcessTree::leaf(Some("A".to_string())), ProcessTree::leaf(Some("B".to_string()))],
    );
    let result = from_process_tree(&tree);
    let labels: Vec<Option<&str>> = result.net.transitions.iter().map(|t| t.label.as_deref()).collect();
    assert!(labels.contains(&Some("A")));
    assert!(labels.contains(&Some("B")));
}

#[test]
fn from_process_tree_markings_and_name() {
    let result = from_process_tree(&leaf("A"));
    assert_eq!(result.net.name, "inductive_net");
    assert_eq!(result.initial_marking.get("source"), Some(1));
    assert_eq!(result.final_marking.get("sink"), Some(1));
    let places: Vec<&str> = result.net.places.iter().map(|p| p.name.as_str()).collect();
    assert!(places.contains(&"source"));
    assert!(places.contains(&"sink"));
}

#[test]
fn from_process_tree_parallel_and_loop_keep_labels() {
    let par = ProcessTree::internal(PtOperator::Parallel, vec![leaf("A"), leaf("B")]);
    let l = labels(&par);
    assert!(l.contains(&Some("A".to_string())) && l.contains(&Some("B".to_string())));
    let lp = ProcessTree::internal(PtOperator::Loop, vec![leaf("C"), leaf("D")]);
    let l = labels(&lp);
    assert!(l.contains(&Some("C".to_string())) && l.contains(&Some("D".to_string())));
    for t in from_process_tree(&lp).net.transitions.iter().filter(|t| t.label.is_some()) {
        assert!(t.name.starts_with("vis_"));
    }
}

#[test]
fn from_process_tree_arcs_join_existing_nodes() {
    let tree = ProcessTree::internal(
        PtOperator::Sequence,
        vec![leaf("A"), ProcessTree::internal(PtOperator::Parallel, vec![leaf("B"), leaf("C")]), leaf("D")],
    );
    let r = from_process_tree(&tree);
    let is_place = |n: &str| r.net.places.iter().any(|p| p.name == n);
    let is_trans = |n: &str| r.net.transitions.iter().any(|t| t.name == n);
    for a in &r.net.arcs {
        assert!((is_place(&a.source) && is_trans(&a.target)) || (is_trans(&a.source) && is_place(&a.target)));
    }
}

#[test]
fn net_labels_follow_tree_leaves() {
    let tree = ProcessTree::internal(
        PtOperator::Sequence,
        vec![
            leaf("A"),
            ProcessTree::internal(PtOperator::Xor, vec![leaf("B"), ProcessTree::leaf(None)]),
            ProcessTree::internal(PtOperator::Parallel, vec![leaf("C"), leaf("D")]),
        ],
    );
    let visible: Vec<String> = labels(&tree).into_iter().flatten().collect();
    assert_eq!(visible, vec!["A", "B", "C", "D"]);
}
