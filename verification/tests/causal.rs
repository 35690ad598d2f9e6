use pm4wasm::discovery::causal::discover_causal_alpha;
use pm4wasm::discovery::dfg::DFGEdge;

fn edge(s: &str, t: &str, count: usize) -> DFGEdge {
    DFGEdge { source: s.to_string(), target: t.to_string(), count }
}

#[test]
fn test_causal_alpha_simple() {
    let edges = vec![edge("A", "B", 10), edge("B", "C", 10)];
    let result = discover_causal_alpha(&edges);
    assert_eq!(result.relations.len(), 2);
    assert_eq!(result.get("A", "B"), Some(1));
    assert_eq!(result.get("B", "C"), Some(1));
}

#[test]
fn test_causal_alpha_no_loop() {
    let edges = vec![edge("A", "B", 5), edge("B", "A", 3)];
    let result = discover_causal_alpha(&edges);
    assert_eq!(result.relations.len(), 0);
}

#[test]
fn causal_alpha_reverse_with_zero_count_is_causal() {
    let edges = vec![edge("A", "B", 4), edge("B", "A", 0), edge("C", "C", 2)];
    let result = discover_causal_alpha(&edges);
    assert_eq!(result.get("A", "B"), Some(1));
    assert_eq!(result.get("B", "A"), None);
    assert_eq!(result.get("C", "C"), None);
    assert_eq!(result.relations.len(), 1);
}

#[test]
fn causal_alpha_later_edge_replaces_earlier() {
    let edges = vec![edge("A", "B", 4), edge("A", "B", 0)];
    let result = discover_causal_alpha(&edges);
    assert!(result.relations.is_empty());
}
