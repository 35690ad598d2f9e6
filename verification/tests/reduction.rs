use pm4wasm::algorithms::reduction::{
    count_reducible_elements, eliminate_identical_places, eliminate_self_loop_places, fuse_series_places,
    fuse_series_transitions, reduce_petri_net,
};
use pm4wasm::petri_net::PetriNet;
use std::collections::HashSet;

fn series_place_net() -> PetriNet {
    let mut net = PetriNet::new("series");
    net.add_place("p1");
    net.add_place("p2");
    net.add_place("p3");
    net.add_transition("tau1", None);
    net.add_transition("tau2", None);
    net.add_arc("p1", "tau1");
    net.add_arc("tau1", "p2");
    net.add_arc("p2", "tau2");
    net.add_arc("tau2", "p3");
    net
}

fn place_names(net: &PetriNet) -> HashSet<String> {
    net.places.iter().map(|p| p.name.clone()).collect()
}

#[test]
fn test_fuse_series_places_reduces() {
    let mut net = series_place_net();
    let before = net.places.len();
    fuse_series_places(&mut net);
    assert!(net.places.len() < before);
    let names = place_names(&net);
    assert!(names.contains("p1"));
    assert!(names.contains("p3"));
}

#[test]
fn test_self_loop_place_eliminated() {
    let mut net = PetriNet::new("selfloop");
    net.add_place("p1");
    net.add_place("p_loop");
    net.add_transition("t1", Some("A".to_string()));
    net.add_arc("p1", "t1");
    net.add_arc("t1", "p_loop");
    net.add_arc("p_loop", "t1");
    let before = net.places.len();
    eliminate_self_loop_places(&mut net);
    assert_eq!(net.places.len(), before - 1);
    let names = place_names(&net);
    assert!(names.contains("p1"));
    assert!(!names.contains("p_loop"));
}

#[test]
fn test_identical_places_merged() {
    let mut net = PetriNet::new("identical");
    net.add_place("p1");
    net.add_place("p2");
    net.add_place("p3");
    net.add_transition("t1", Some("A".to_string()));
    net.add_transition("t2", Some("B".to_string()));
    net.add_arc("t1", "p1");
    net.add_arc("p1", "t2");
    net.add_arc("t1", "p2");
    net.add_arc("p2", "t2");
    net.add_arc("t2", "p3");
    let before = net.places.len();
    eliminate_identical_places(&mut net);
    assert_eq!(net.places.len(), before - 1);
}

#[test]
fn test_reduce_petri_net_full() {
    let mut net = series_place_net();
    reduce_petri_net(&mut net);
    assert!(net.places.len() <= 2);
    assert!(net.transitions.len() <= 1);
}

#[test]
fn test_count_reducible_elements() {
    let net = series_place_net();
    let count = count_reducible_elements(&net);
    assert!(count > 0);
}

#[test]
fn test_no_reduction_on_visible_only() {
    let mut net = PetriNet::new("visible");
    net.add_place("p1");
    net.add_place("p2");
    net.add_transition("A", Some("A".to_string()));
    net.add_transition("B", Some("B".to_string()));
    net.add_arc("p1", "A");
    net.add_arc("A", "p2");
    net.add_arc("p2", "B");
    assert!(!fuse_series_places(&mut net));
    assert_eq!(count_reducible_elements(&net), 0);
}

#[test]
fn fuse_series_places_rewires_input_transition() {
    let mut net = series_place_net();
    assert!(fuse_series_places(&mut net));
    let names: Vec<&str> = net.places.iter().map(|p| p.name.as_str()).collect();
    assert_eq!(names, vec!["p1", "p3"]);
    let ts: Vec<&str> = net.transitions.iter().map(|t| t.name.as_str()).collect();
    assert_eq!(ts, vec!["tau1"]);
    let arcs: Vec<(&str, &str)> = net.arcs.iter().map(|a| (a.source.as_str(), a.target.as_str())).collect();
    assert_eq!(arcs, vec![("p1", "tau1"), ("tau1", "p3")]);
}

#[test]
fn fuse_series_transition_joins_neighbours() {
    let mut net = PetriNet::new("join");
    net.add_place("p0");
    net.add_place("p1");
    net.add_place("p2");
    net.add_place("p3");
    net.add_transition("a", Some("A".to_string()));
    net.add_transition("tau", None);
    net.add_transition("b", Some("B".to_string()));
    net.add_arc("p0", "a");
    net.add_arc("a", "p1");
    net.add_arc("p1", "tau");
    net.add_arc("tau", "p2");
    net.add_arc("p2", "b");
    net.add_arc("b", "p3");
    assert!(fuse_series_transitions(&mut net));
    let names: Vec<&str> = net.places.iter().map(|p| p.name.as_str()).collect();
    assert_eq!(names, vec!["p0", "p3", "p_merge_a_b"]);
    assert_eq!(net.transitions.len(), 2);
    let arcs: Vec<(&str, &str)> = net.arcs.iter().map(|a| (a.source.as_str(), a.target.as_str())).collect();
    assert_eq!(arcs, vec![("p0", "a"), ("b", "p3"), ("a", "p_merge_a_b"), ("p_merge_a_b", "b")]);
}

#[test]
fn reduced_net_has_nothing_left_to_reduce() {
    let mut net = series_place_net();
    reduce_petri_net(&mut net);
    assert_eq!(count_reducible_elements(&net), 0);
    assert!(net.places.is_empty());
    assert!(net.transitions.is_empty());
}

#[test]
fn reduction_keeps_labelled_and_leaves_nothing_reducible() {
    let mut net = PetriNet::new("mixed");
    for p in ["p0", "p1", "p2", "p3", "p4"] {
        net.add_place(p);
    }
    net.add_transition("a", Some("A".to_string()));
    net.add_transition("tau1", None);
    net.add_transition("tau2", None);
    net.add_transition("b", Some("B".to_string()));
    net.add_arc("p0", "a");
    net.add_arc("a", "p1");
    net.add_arc("p1", "tau1");
    net.add_arc("tau1", "p2");
    net.add_arc("p2", "tau2");
    net.add_arc("tau2", "p3");
    net.add_arc("p3", "b");
    net.add_arc("b", "p4");
    reduce_petri_net(&mut net);
    let labelled: Vec<(String, String)> = net
        .transitions
        .iter()
        .filter_map(|t| t.label.as_ref().map(|l| (t.name.clone(), l.clone())))
        .collect();
    assert_eq!(labelled, vec![("a".to_string(), "A".to_string()), ("b".to_string(), "B".to_string())]);
    assert_eq!(count_reducible_elements(&net), 0);
}
