use pm4wasm::discovery::alpha_miner::alpha_miner;
use pm4wasm::event_log::parse_csv;

#[test]
fn test_alpha_sequential() {
    let log = parse_csv("case_id,activity\n1,A\n1,B\n2,A\n2,B\n").unwrap();
    let result = alpha_miner(&log);
    assert!(result.net.places.len() >= 2);
    assert_eq!(result.net.transitions.len(), 2);
}

#[test]
fn test_alpha_parallel() {
    let log = parse_csv("case_id,activity\n1,A\n1,B\n2,B\n2,A\n").unwrap();
    let result = alpha_miner(&log);
    assert!(result.net.transitions.len() >= 2);
}

#[test]
fn test_alpha_empty_log() {
    let log = parse_csv("case_id,activity\n").unwrap();
    let result = alpha_miner(&log);
    assert_eq!(result.net.transitions.len(), 0);
}

#[test]
fn test_alpha_xor() {
    let log = parse_csv("case_id,activity\n1,A\n1,B\n2,A\n2,C\n").unwrap();
    let result = alpha_miner(&log);
    assert!(result.net.transitions.len() >= 3);
}

#[test]
fn alpha_sequential_net_is_exact() {
    let log = parse_csv("case_id,activity\n1,A\n1,B\n2,A\n2,B\n").unwrap();
    let result = alpha_miner(&log);
    assert_eq!(result.net.name, "alpha");
    let places: Vec<&str> = result.net.places.iter().map(|p| p.name.as_str()).collect();
    assert_eq!(places, vec!["p_start", "p_end", "p_A_B"]);
    let ts: Vec<(&str, Option<&str>)> =
        result.net.transitions.iter().map(|t| (t.name.as_str(), t.label.as_deref())).collect();
    assert_eq!(ts, vec![("t_A", Some("A")), ("t_B", Some("B"))]);
    let arcs: Vec<(&str, &str)> = result.net.arcs.iter().map(|a| (a.source.as_str(), a.target.as_str())).collect();
    assert_eq!(arcs, vec![("p_start", "t_A"), ("t_B", "p_end"), ("p_A_B", "t_B"), ("t_A", "p_A_B")]);
    assert_eq!(result.initial_marking.get("p_start"), Some(1));
    assert_eq!(result.final_marking.get("p_end"), Some(1));
    assert_eq!(result.initial_marking.get("p_end"), None);
}

#[test]
fn alpha_parallel_has_no_causal_place() {
    let log = parse_csv("case_id,activity\n1,A\n1,B\n2,B\n2,A\n").unwrap();
    let result = alpha_miner(&log);
    assert_eq!(result.net.places.len(), 2);
}

#[test]
fn alpha_single_event_log_has_its_transition() {
    let log = parse_csv("case,activity\n1,A\n").unwrap();
    let result = alpha_miner(&log);
    let ts: Vec<(&str, Option<&str>)> =
        result.net.transitions.iter().map(|t| (t.name.as_str(), t.label.as_deref())).collect();
    assert_eq!(ts, vec![("t_A", Some("A"))]);
    let arcs: Vec<(&str, &str)> = result.net.arcs.iter().map(|a| (a.source.as_str(), a.target.as_str())).collect();
    assert_eq!(arcs, vec![("p_start", "t_A"), ("t_A", "p_end")]);
    for a in &result.net.arcs {
        let is_place = |n: &str| result.net.places.iter().any(|p| p.name == n);
        let is_trans = |n: &str| result.net.transitions.iter().any(|t| t.name == n);
        assert!((is_place(&a.source) && is_trans(&a.target)) || (is_trans(&a.source) && is_place(&a.target)));
    }
}
