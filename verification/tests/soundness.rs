use pm4wasm::conformance::soundness::check_soundness;
use pm4wasm::petri_net::{Marking, PetriNet};

fn markings(start: &str, end: &str, end_tokens: u32) -> (Marking, Marking) {
    let mut initial = Marking::new();
    initial.insert(start.to_string(), 1);
    let mut final_m = Marking::new();
    final_m.insert(end.to_string(), end_tokens);
    (initial, final_m)
}

fn sequential_net() -> (PetriNet, Marking, Marking) {
    let mut net = PetriNet::new("seq");
    net.add_place("p_start");
    net.add_place("p1");
    net.add_place("p_end");
    net.add_transition("t_A", Some("A".to_string()));
    net.add_transition("t_B", Some("B".to_string()));
    net.add_arc("p_start", "t_A");
    net.add_arc("t_A", "p1");
    net.add_arc("p1", "t_B");
    net.add_arc("t_B", "p_end");
    let (i, f) = markings("p_start", "p_end", 1);
    (net, i, f)
}

fn parallel_net() -> (PetriNet, Marking, Marking) {
    let mut net = PetriNet::new("parallel");
    net.add_place("p_start");
    net.add_place("p_end");
    net.add_place("p_split");
    net.add_place("p_join");
    net.add_transition("t_A", Some("A".to_string()));
    net.add_transition("t_B", Some("B".to_string()));
    net.add_arc("p_start", "p_split");
    net.add_arc("p_split", "t_A");
    net.add_arc("p_split", "t_B");
    net.add_arc("t_A", "p_join");
    net.add_arc("t_B", "p_join");
    net.add_arc("p_join", "p_end");
    let (i, f) = markings("p_start", "p_end", 1);
    (net, i, f)
}

fn choice_net() -> (PetriNet, Marking, Marking) {
    let mut net = PetriNet::new("choice");
    net.add_place("p_start");
    net.add_place("p_end");
    net.add_place("p_A");
    net.add_place("p_B");
    net.add_transition("t_A", Some("A".to_string()));
    net.add_transition("t_B", Some("B".to_string()));
    net.add_arc("p_start", "p_A");
    net.add_arc("p_start", "p_B");
    net.add_arc("p_A", "p_end");
    net.add_arc("p_B", "p_end");
    let (i, f) = markings("p_start", "p_end", 1);
    (net, i, f)
}

fn loop_net() -> (PetriNet, Marking, Marking) {
    let mut net = PetriNet::new("loop");
    net.add_place("p_start");
    net.add_place("p_do");
    net.add_place("p_redo");
    net.add_place("p_end");
    net.add_transition("t_A", Some("A".to_string()));
    net.add_transition("t_B", Some("B".to_string()));
    net.add_arc("p_start", "p_do");
    net.add_arc("p_do", "t_A");
    net.add_arc("t_A", "p_end");
    net.add_arc("p_do", "p_redo");
    net.add_arc("p_redo", "t_B");
    net.add_arc("t_B", "p_do");
    let (i, f) = markings("p_start", "p_end", 1);
    (net, i, f)
}

fn deadlock_net() -> (PetriNet, Marking, Marking) {
    let mut net = PetriNet::new("deadlock");
    net.add_place("p_start");
    net.add_place("p_stuck");
    net.add_place("p_end");
    net.add_transition("t_A", Some("A".to_string()));
    net.add_transition("t_B", Some("B".to_string()));
    net.add_arc("p_start", "t_A");
    net.add_arc("t_A", "p_stuck");
    net.add_arc("p_stuck", "p_end");
    let (i, f) = markings("p_start", "p_end", 1);
    (net, i, f)
}

#[test]
fn test_sound_sequential_net() {
    let (net, initial, final_m) = sequential_net();
    let result = check_soundness(&net, &initial, &final_m);
    assert!(result.sound, "Sequential net should be sound");
    assert!(result.deadlock_free);
    assert!(result.bounded);
    assert!(result.liveness);
}

#[test]
fn test_sound_parallel_net() {
    let (net, initial, final_m) = parallel_net();
    let result = check_soundness(&net, &initial, &final_m);
    assert!(result.bounded, "Parallel net should be bounded");
}

#[test]
fn test_sound_choice_net() {
    let (net, initial, final_m) = choice_net();
    let result = check_soundness(&net, &initial, &final_m);
    assert!(result.bounded, "Choice net should be bounded");
}

#[test]
fn test_sound_loop_net() {
    let (net, initial, final_m) = loop_net();
    let result = check_soundness(&net, &initial, &final_m);
    assert!(result.bounded, "Loop net should be bounded");
}

#[test]
fn test_deadlock_net_unsound() {
    let (net, initial, final_m) = deadlock_net();
    let result = check_soundness(&net, &initial, &final_m);
    assert!(!result.sound, "Deadlock net should be unsound");
    assert!(!result.deadlock_free, "Should detect deadlock");
    assert!(!result.liveness, "Should fail liveness");
}

#[test]
fn test_self_loop_net_is_bounded_and_live_but_not_complete() {
    let mut net = PetriNet::new("self_loop");
    net.add_place("p_start");
    net.add_transition("t_A", Some("A".to_string()));
    net.add_arc("p_start", "t_A");
    net.add_arc("t_A", "p_start");
    let (initial, final_m) = markings("p_start", "p_start", 0);
    let result = check_soundness(&net, &initial, &final_m);
    assert!(result.bounded);
    assert!(result.liveness);
    assert!(result.deadlock_free);
    // The empty final marking is never reached: the token stays on p_start.
    assert!(!result.sound);
}

#[test]
fn test_token_generator_stays_under_limit_within_depth() {
    // A transition that puts two tokens back for the one it takes.
    let mut net = PetriNet::new("generator");
    net.add_place("p");
    net.add_place("q");
    net.add_transition("t", Some("T".to_string()));
    net.add_arc("p", "t");
    net.add_arc("t", "p");
    net.add_arc("t", "q");
    let (initial, final_m) = markings("p", "q", 1);
    let result = check_soundness(&net, &initial, &final_m);
    // Within the explored depth q holds at most 49 tokens, below the limit.
    assert!(result.bounded);
    assert!(!result.sound);
}

#[test]
fn test_sequential_net_with_start_token_already_final() {
    let (net, initial, _) = sequential_net();
    let mut final_m = Marking::new();
    final_m.insert("p_start".to_string(), 1);
    let result = check_soundness(&net, &initial, &final_m);
    assert!(result.sound);
}

#[test]
fn test_unreached_visible_transition_is_not_live() {
    let (mut net, initial, final_m) = sequential_net();
    net.add_place("p_never");
    net.add_transition("t_C", Some("C".to_string()));
    net.add_arc("p_never", "t_C");
    let result = check_soundness(&net, &initial, &final_m);
    assert!(result.bounded);
    assert!(!result.liveness);
    assert!(!result.deadlock_free);
    assert!(!result.sound);
}
