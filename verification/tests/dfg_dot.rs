use pm4wasm::conversion::dfg::dfg_to_dot;
use pm4wasm::discovery::dfg::{DFGEdge, DFGResult};

fn sample_dfg() -> DFGResult {
    DFGResult {
        edges: vec![
            DFGEdge { source: "A".to_string(), target: "B".to_string(), count: 5 },
            DFGEdge { source: "B".to_string(), target: "C".to_string(), count: 3 },
        ],
        start_activities: vec![("A".to_string(), 5)],
        end_activities: vec![("C".to_string(), 3)],
        activities: vec![("A".to_string(), 5), ("B".to_string(), 5), ("C".to_string(), 3)],
    }
}

#[test]
fn test_dfg_to_dot() {
    let dfg = sample_dfg();
    let dot = dfg_to_dot(&dfg);
    assert!(dot.contains("digraph DFG"));
    assert!(dot.contains("\"A\" -> \"B\""));
    assert!(dot.contains("label=\"5\""));
}

#[test]
fn dfg_to_dot_lists_each_node_once() {
    let dot = dfg_to_dot(&sample_dfg());
    let expected = "digraph DFG {\n  rankdir=LR;\n  node [shape=box];\n\n  \"A\";\n  \"C\";\n  \"B\";\n\n  \"A\" -> \"B\" [label=\"5\"];\n  \"B\" -> \"C\" [label=\"3\"];\n}\n";
    assert_eq!(dot, expected);
    let empty = DFGResult { edges: vec![], start_activities: vec![], end_activities: vec![], activities: vec![] };
    assert_eq!(dfg_to_dot(&empty), "digraph DFG {\n  rankdir=LR;\n  node [shape=box];\n\n\n}\n");
}
