use pm4wasm::discovery::heuristics_miner::{heuristics_to_petri_net, Dependency, HeuristicsNet};

fn two_step_net() -> HeuristicsNet {
    HeuristicsNet {
        activities: vec!["A".to_string(), "B".to_string()],
        dependencies: vec![Dependency { from: "A".to_string(), to: "B".to_string(), frequency: 2 }],
        start_activities: vec![("A".to_string(), 2)],
        end_activities: vec![("B".to_string(), 2)],
    }
}

#[test]
fn test_heuristics_to_petri_net() {
    let pn = heuristics_to_petri_net(&two_step_net());
    assert!(!pn.net.places.is_empty());
    assert!(!pn.net.transitions.is_empty());
    assert!(!pn.net.arcs.is_empty());
}

#[test]
fn heuristics_net_layout() {
    let pn = heuristics_to_petri_net(&two_step_net());
    assert_eq!(pn.net.name, "heuristics_miner");
    let places: Vec<&str> = pn.net.places.iter().map(|p| p.name.as_str()).collect();
    assert_eq!(places, vec!["p_source", "p_sink", "p_A_B"]);
    let arcs: Vec<(&str, &str)> = pn.net.arcs.iter().map(|a| (a.source.as_str(), a.target.as_str())).collect();
    assert_eq!(arcs, vec![("p_source", "A"), ("A", "p_A_B"), ("p_A_B", "B"), ("B", "p_sink")]);
    assert_eq!(pn.initial_marking.tokens, vec![("p_source".to_string(), 2)]);
    assert_eq!(pn.final_marking.tokens, vec![("p_sink".to_string(), 2)]);
}
