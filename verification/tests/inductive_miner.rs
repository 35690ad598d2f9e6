use pm4wasm::discovery::inductive_miner::inductive_miner;
use pm4wasm::event_log::{parse_csv, EventLog};
use pm4wasm::process_tree::{simplify_tree, ProcessTree, PtOperator};

fn make_simple_log() -> EventLog {
    parse_csv(
        "case_id,activity,timestamp\n\
         1,A,2020-01-01T10:00:00\n\
         1,B,2020-01-01T10:05:00\n\
         2,A,2020-01-01T11:00:00\n\
         2,B,2020-01-01T11:03:00\n\
         2,C,2020-01-01T11:10:00\n\
         3,A,2020-01-02T09:00:00\n\
         3,C,2020-01-02T09:30:00\n",
    )
    .unwrap()
}

#[test]
fn test_inductive_miner_produces_tree() {
    let log = make_simple_log();
    let tree = inductive_miner(&log);
    let repr = tree.to_repr();
    assert!(!repr.is_empty());
    assert!(repr.contains("A"));
    assert!(repr.contains("B"));
    assert!(repr.contains("C"));
}

#[test]
fn test_single_activity_log() {
    let log = parse_csv(
        "case_id,activity,timestamp\n\
         1,A,2020-01-01T10:00:00\n\
         2,A,2020-01-01T11:00:00\n",
    )
    .unwrap();
    let tree = inductive_miner(&log);
    assert_eq!(tree.to_repr(), "A");
}

#[test]
fn test_empty_log() {
    let log = parse_csv("case_id,activity,timestamp\n").unwrap();
    let tree = inductive_miner(&log);
    assert_eq!(tree.to_repr(), "tau");
}

#[test]
fn test_sequence_log() {
    let log = parse_csv(
        "case_id,activity,timestamp\n\
         1,A,2020-01-01T10:00:00\n\
         1,B,2020-01-01T10:05:00\n\
         1,C,2020-01-01T10:10:00\n\
         2,A,2020-01-01T11:00:00\n\
         2,B,2020-01-01T11:05:00\n\
         2,C,2020-01-01T11:10:00\n",
    )
    .unwrap();
    let tree = inductive_miner(&log);
    let repr = tree.to_repr();
    assert!(repr.contains("->"), "Expected sequence operator, got: {}", repr);
}

#[test]
fn test_xor_log() {
    let log = parse_csv(
        "case_id,activity,timestamp\n\
         1,A,2020-01-01T10:00:00\n\
         2,B,2020-01-01T11:00:00\n",
    )
    .unwrap();
    let tree = inductive_miner(&log);
    let repr = tree.to_repr();
    assert!(repr.contains("X"), "Expected XOR operator, got: {}", repr);
}

#[test]
fn test_parallel_log() {
    let log = parse_csv(
        "case_id,activity,timestamp\n\
         1,A,2020-01-01T10:00:00\n\
         1,B,2020-01-01T10:05:00\n\
         2,B,2020-01-01T11:00:00\n\
         2,A,2020-01-01T11:05:00\n",
    )
    .unwrap();
    let tree = inductive_miner(&log);
    let repr = tree.to_repr();
    assert!(repr.contains("+"), "Expected parallel operator, got: {}", repr);
}

#[test]
fn test_simplify_tree() {
    let tree = ProcessTree::internal(
        PtOperator::Sequence,
        vec![
            ProcessTree::internal(PtOperator::Sequence, vec![ProcessTree::leaf(Some("A".to_string()))]),
            ProcessTree::leaf(Some("B".to_string())),
        ],
    );
    let simplified = simplify_tree(tree);
    assert_eq!(simplified.children.len(), 2);
}

#[test]
fn sequence_log_mines_exact_sequence() {
    let log = parse_csv("case_id,activity\n1,A\n1,B\n1,C\n2,A\n2,B\n2,C\n").unwrap();
    assert_eq!(inductive_miner(&log).to_repr(), "-> ( A, B, C )");
}

#[test]
fn empty_trace_gives_choice_with_silent_leaf() {
    let mut log = parse_csv("case_id,activity\n1,A\n").unwrap();
    let mut empty = log.traces[0].clone();
    empty.events.clear();
    log.traces.push(empty);
    assert_eq!(inductive_miner(&log).to_repr(), "X ( tau, A )");
}

#[test]
fn unstructured_log_falls_back_to_flower_model() {
    // B is reachable from the start activity A, so no cut separates it.
    let log = parse_csv("case_id,activity\n1,A\n1,B\n1,A\n2,A\n").unwrap();
    assert_eq!(inductive_miner(&log).to_repr(), "* ( tau, + ( A, B ) )");
}

#[test]
fn simplify_tree_removes_single_child_nodes_and_flattens() {
    let tree = ProcessTree::internal(
        PtOperator::Xor,
        vec![
            ProcessTree::internal(PtOperator::Sequence, vec![ProcessTree::leaf(Some("A".to_string()))]),
            ProcessTree::internal(
                PtOperator::Xor,
                vec![ProcessTree::leaf(Some("B".to_string())), ProcessTree::leaf(None)],
            ),
        ],
    );
    assert_eq!(simplify_tree(tree).to_repr(), "X ( A, B, tau )");
}

#[test]
fn to_repr_writes_operators() {
    let tree = ProcessTree::internal(
        PtOperator::Loop,
        vec![
            ProcessTree::leaf(Some("A".to_string())),
            ProcessTree::internal(
                PtOperator::Parallel,
                vec![ProcessTree::leaf(Some("B".to_string())), ProcessTree::leaf(None)],
            ),
        ],
    );
    assert_eq!(tree.to_repr(), "* ( A, + ( B, tau ) )");
}

#[test]
fn simplify_tree_twice_changes_nothing() {
    let leaf = |a: &str| ProcessTree::leaf(Some(a.to_string()));
    let tree = ProcessTree::internal(
        PtOperator::Sequence,
        vec![
            ProcessTree::internal(PtOperator::Sequence, vec![leaf("A")]),
            ProcessTree::internal(PtOperator::Xor, vec![ProcessTree::internal(PtOperator::Xor, vec![leaf("B"), leaf("C")])]),
            leaf("D"),
        ],
    );
    let once = simplify_tree(tree);
    let repr_once = once.to_repr();
    assert_eq!(once.children.len(), 3);
    let twice = simplify_tree(once);
    assert_eq!(twice.to_repr(), repr_once);
}

#[test]
fn inductive_miner_keeps_every_activity() {
    let log = parse_csv("case_id,activity\n1,A\n1,B\n1,C\n2,C\n2,B\n2,A\n3,A\n3,C\n3,B\n4,C\n4,A\n4,B\n").unwrap();
    let repr = inductive_miner(&log).to_repr();
    for a in ["A", "B", "C"] {
        assert!(repr.contains(a));
    }
}

#[test]
fn totally_ordered_log_mines_a_sequence_root() {
    let log = parse_csv(
        "case_id,activity,timestamp\n\
         1,A,2020-01-01T10:00:00\n\
         1,B,2020-01-01T10:05:00\n\
         1,C,2020-01-01T10:10:00\n\
         2,A,2020-01-01T11:00:00\n\
         2,C,2020-01-01T11:10:00\n",
    )
    .unwrap();
    let tree = inductive_miner(&log);
    assert_eq!(tree.operator, Some(PtOperator::Sequence));
}
