use pm4wasm::discovery::alpha_plus_miner::alpha_plus_miner;
use pm4wasm::event_log::parse_csv;

#[test]
fn test_alpha_plus_sequential() {
    let log = parse_csv("case_id,activity\n1,A\n1,B\n2,A\n2,B\n").unwrap();
    let result = alpha_plus_miner(&log);
    assert!(result.net.places.len() >= 2);
    assert_eq!(result.net.transitions.len(), 2);
}

#[test]
fn test_alpha_plus_loop_one() {
    let log = parse_csv("case_id,activity\n1,A\n1,A\n1,B\n2,A\n2,A\n2,B\n").unwrap();
    let result = alpha_plus_miner(&log);
    assert!(result.net.transitions.len() >= 2);
}

#[test]
fn test_alpha_plus_loop_two() {
    let log = parse_csv("case_id,activity\n1,A\n1,B\n1,A\n1,C\n2,A\n2,B\n2,A\n2,C\n").unwrap();
    let result = alpha_plus_miner(&log);
    assert!(result.net.transitions.len() >= 3);
}

#[test]
fn test_alpha_plus_empty_log() {
    let log = parse_csv("case_id,activity\n").unwrap();
    let result = alpha_plus_miner(&log);
    assert_eq!(result.net.transitions.len(), 0);
}

#[test]
fn test_alpha_plus_parallel() {
    let log = parse_csv("case_id,activity\n1,A\n1,B\n2,B\n2,A\n").unwrap();
    let result = alpha_plus_miner(&log);
    assert!(result.net.transitions.len() >= 2);
}

#[test]
fn alpha_plus_self_loop_gets_marked_loop_place() {
    let log = parse_csv("case_id,activity\n1,A\n1,A\n1,B\n").unwrap();
    let result = alpha_plus_miner(&log);
    assert_eq!(result.net.name, "alpha_plus");
    let ts: Vec<&str> = result.net.transitions.iter().map(|t| t.name.as_str()).collect();
    assert_eq!(ts, vec!["t_A", "t_B", "t_A_loop"]);
    assert_eq!(result.net.transitions[2].label.as_deref(), Some("A_loop"));
    let places: Vec<&str> = result.net.places.iter().map(|p| p.name.as_str()).collect();
    assert_eq!(places, vec!["p_start", "p_end", "p_A_B", "p_loop_A"]);
    assert_eq!(result.initial_marking.get("p_loop_A"), Some(1));
    assert_eq!(result.initial_marking.get("p_start"), Some(1));
    assert_eq!(result.final_marking.get("p_end"), Some(1));
}

#[test]
fn alpha_plus_parallel_pairs_get_parallel_places() {
    let log = parse_csv("case_id,activity\n1,A\n1,B\n2,B\n2,A\n").unwrap();
    let result = alpha_plus_miner(&log);
    let places: Vec<&str> = result.net.places.iter().map(|p| p.name.as_str()).collect();
    assert_eq!(places, vec!["p_start", "p_end", "p_parallel_A_B", "p_parallel_B_A"]);
}
