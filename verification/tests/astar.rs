use pm4wasm::conformance::alignments::astar::{
    align_trace, AlignmentResult, SyncProductNet, LOG_MOVE_COST, MODEL_MOVE_COST, TAU_COST,
};
use pm4wasm::event_log::{Event, EventLog, Trace};
use pm4wasm::petri_net::{Marking, PetriNet};

/// Build a simple sequential net: [p_start] → t_A → [p1] → t_B → [p_end]
fn sequential_net() -> (PetriNet, Marking, Marking) {
    let mut net = PetriNet::new("seq");
    net.add_place("p_start");
    net.add_place("p1");
    net.add_place("p_end");
    net.add_transition("t_A", Some("A".into()));
    net.add_transition("t_B", Some("B".into()));
    net.add_arc("p_start", "t_A");
    net.add_arc("t_A", "p1");
    net.add_arc("p1", "t_B");
    net.add_arc("t_B", "p_end");

    let mut initial = Marking::new();
    initial.insert("p_start".into(), 1);
    let mut final_m = Marking::new();
    final_m.insert("p_end".into(), 1);

    (net, initial, final_m)
}

fn make_trace(case_id: &str, acts: &[&str]) -> Trace {
    Trace {
        case_id: case_id.to_string(),
        events: acts
            .iter()
            .map(|&a| Event { name: a.to_string(), timestamp: None, lifecycle: None, attributes: Vec::new() })
            .collect(),
    }
}

/// Build a net with an invisible transition: [p_start] → tau → [p1] → t_A → [p_end]
fn net_with_invisible() -> (PetriNet, Marking, Marking) {
    let mut net = PetriNet::new("invisible");
    net.add_place("p_start");
    net.add_place("p1");
    net.add_place("p_end");
    net.add_transition("tau_1", None); // invisible
    net.add_transition("t_A", Some("A".into()));
    net.add_arc("p_start", "tau_1");
    net.add_arc("tau_1", "p1");
    net.add_arc("p1", "t_A");
    net.add_arc("t_A", "p_end");

    let mut initial = Marking::new();
    initial.insert("p_start".into(), 1);
    let mut final_m = Marking::new();
    final_m.insert("p_end".into(), 1);

    (net, initial, final_m)
}

/// Uses 2 tokens in p_start so both A and B can fire (AND-split semantics).
fn parallel_net() -> (PetriNet, Marking, Marking) {
    let mut net = PetriNet::new("parallel");
    net.add_place("p_start");
    net.add_place("p_a");
    net.add_place("p_b");
    net.add_place("p_join");
    net.add_place("p_end");
    net.add_transition("t_A", Some("A".into()));
    net.add_transition("t_B", Some("B".into()));
    net.add_transition("t_C", Some("C".into()));
    net.add_arc("p_start", "t_A");
    net.add_arc("p_start", "t_B");
    net.add_arc("t_A", "p_a");
    net.add_arc("t_B", "p_b");
    net.add_arc("p_a", "t_C");
    net.add_arc("p_b", "t_C");
    net.add_arc("t_C", "p_end");

    let mut initial = Marking::new();
    initial.insert("p_start".into(), 2); // 2 tokens for AND-split
    let mut final_m = Marking::new();
    final_m.insert("p_end".into(), 1);

    (net, initial, final_m)
}

fn cost(result: &AlignmentResult) -> f64 {
    result.cost.map(|c| c as f64).unwrap_or(f64::INFINITY)
}

fn fitness(result: &AlignmentResult, trace_len: usize) -> f64 {
    match result.cost {
        None => 0.0,
        Some(c) => {
            if trace_len == 0 {
                1.0
            } else {
                (1.0 - c as f64 / (trace_len as f64 * LOG_MOVE_COST as f64)).max(0.0)
            }
        }
    }
}

#[test]
fn test_perfect_alignment_sequential() {
    let (net, initial, final_m) = sequential_net();
    let trace = make_trace("c1", &["A", "B"]);
    let result = align_trace(&net, &initial, &final_m, &trace);

    assert!(result.is_fit);
    assert!((cost(&result) - 0.0).abs() < 1e-9);
    assert!((fitness(&result, 2) - 1.0).abs() < 1e-9);

    // Should have exactly 2 sync moves
    assert_eq!(result.alignment.len(), 2);
    assert_eq!(result.alignment[0].trace_activity.as_deref(), Some("A"));
    assert_eq!(result.alignment[0].model_activity.as_deref(), Some("A"));
    assert_eq!(result.alignment[0].cost, 0);
    assert_eq!(result.alignment[1].trace_activity.as_deref(), Some("B"));
    assert_eq!(result.alignment[1].model_activity.as_deref(), Some("B"));
    assert_eq!(result.alignment[1].cost, 0);
}

#[test]
fn test_deviating_trace_log_moves() {
    let (net, initial, final_m) = sequential_net();
    // Trace has an activity "C" that is not in the model
    let trace = make_trace("c1", &["A", "C", "B"]);
    let result = align_trace(&net, &initial, &final_m, &trace);

    assert!(!result.is_fit);
    assert!(cost(&result) > 0.0);
    assert!(fitness(&result, 3) < 1.0);
    assert!(fitness(&result, 3) > 0.0);

    // Should have a log move for "C" (model_activity = None)
    let log_moves: Vec<_> = result.alignment.iter().filter(|m| m.model_activity.is_none()).collect();
    assert_eq!(log_moves.len(), 1);
    assert_eq!(log_moves[0].trace_activity.as_deref(), Some("C"));
}

#[test]
fn test_extra_activity_in_model_model_moves() {
    // Model has A, B, C but trace only has A, B
    let mut net = PetriNet::new("extra");
    net.add_place("p_start");
    net.add_place("p1");
    net.add_place("p2");
    net.add_place("p_end");
    net.add_transition("t_A", Some("A".into()));
    net.add_transition("t_B", Some("B".into()));
    net.add_transition("t_C", Some("C".into()));
    net.add_arc("p_start", "t_A");
    net.add_arc("t_A", "p1");
    net.add_arc("p1", "t_B");
    net.add_arc("t_B", "p2");
    net.add_arc("p2", "t_C");
    net.add_arc("t_C", "p_end");

    let mut initial = Marking::new();
    initial.insert("p_start".into(), 1);
    let mut final_m = Marking::new();
    final_m.insert("p_end".into(), 1);

    let trace = make_trace("c1", &["A", "B"]);
    let result = align_trace(&net, &initial, &final_m, &trace);

    assert!(!result.is_fit);
    assert!(cost(&result) > 0.0);

    // Should have a model move for "C" (trace_activity = None)
    let model_moves: Vec<_> = result.alignment.iter().filter(|m| m.trace_activity.is_none()).collect();
    assert_eq!(model_moves.len(), 1);
    assert_eq!(model_moves[0].model_activity.as_deref(), Some("C"));
    assert_eq!(model_moves[0].cost, MODEL_MOVE_COST);
}

#[test]
fn test_invisible_transition_handled() {
    let (net, initial, final_m) = net_with_invisible();
    let trace = make_trace("c1", &["A"]);
    let result = align_trace(&net, &initial, &final_m, &trace);

    // The invisible transition must fire before A.
    assert_eq!(result.alignment.len(), 2);

    let model_moves: Vec<_> = result.alignment.iter().filter(|m| m.trace_activity.is_none()).collect();
    assert_eq!(model_moves.len(), 1);
    assert_eq!(model_moves[0].cost, TAU_COST);

    let sync_moves: Vec<_> =
        result.alignment.iter().filter(|m| m.trace_activity.is_some() && m.model_activity.is_some()).collect();
    assert_eq!(sync_moves.len(), 1);
    assert_eq!(sync_moves[0].trace_activity.as_deref(), Some("A"));
}

#[test]
fn test_parallel_net_perfect_trace() {
    let (net, initial, final_m) = parallel_net();
    // Both A and B must fire before C (in any order)
    let trace = make_trace("c1", &["A", "B", "C"]);
    let result = align_trace(&net, &initial, &final_m, &trace);

    assert!(result.is_fit);
    assert!((cost(&result) - 0.0).abs() < 1e-9);
    assert_eq!(result.alignment.len(), 3);
}

#[test]
fn test_parallel_net_reverse_order() {
    let (net, initial, final_m) = parallel_net();
    // B before A is also valid
    let trace = make_trace("c1", &["B", "A", "C"]);
    let result = align_trace(&net, &initial, &final_m, &trace);

    assert!(result.is_fit);
    assert!((cost(&result) - 0.0).abs() < 1e-9);
}

#[test]
fn test_empty_trace() {
    let (net, initial, final_m) = sequential_net();
    let trace = make_trace("c1", &[]);
    let result = align_trace(&net, &initial, &final_m, &trace);

    assert!(result.is_fit);
    assert!((cost(&result) - 0.0).abs() < 1e-9);
    assert!(result.alignment.is_empty());
}

#[test]
fn test_log_level_alignment() {
    let (net, initial, final_m) = sequential_net();
    let log = EventLog {
        traces: vec![
            make_trace("c1", &["A", "B"]),
            make_trace("c2", &["A", "C", "B"]), // C is a log move
        ],
    };
    let results: Vec<(AlignmentResult, usize)> = log
        .traces
        .iter()
        .map(|t| (align_trace(&net, &initial, &final_m, t), t.events.len()))
        .collect();
    let average_fitness = results.iter().map(|(r, n)| fitness(r, *n)).sum::<f64>() / results.len() as f64;

    assert_eq!(results.len(), 2);
    assert!(results[0].0.is_fit);
    assert!(!results[1].0.is_fit);
    assert!(average_fitness > 0.0);
    assert!(average_fitness < 1.0);
}

#[test]
fn alignment_trace_side_spells_the_trace() {
    let (net, initial, final_m) = sequential_net();
    for acts in [vec!["A", "B"], vec!["B", "A"], vec!["A", "C", "B"], vec!["C"], vec!["B", "B", "A"]] {
        let result = align_trace(&net, &initial, &final_m, &make_trace("c", &acts));
        let side: Vec<&str> = result.alignment.iter().filter_map(|m| m.trace_activity.as_deref()).collect();
        assert_eq!(side, acts);
        let total: u64 = result.alignment.iter().map(|m| m.cost).sum();
        assert_eq!(result.cost, Some(total));
    }
}

#[test]
fn deviating_trace_costs_one_log_move() {
    let (net, initial, final_m) = sequential_net();
    let result = align_trace(&net, &initial, &final_m, &make_trace("c1", &["A", "C", "B"]));
    assert_eq!(result.cost, Some(LOG_MOVE_COST));
    assert!((fitness(&result, 3) - (1.0 - 1.0 / 3.0)).abs() < 1e-9);
}

#[test]
fn product_net_layout() {
    let (net, initial, final_m) = sequential_net();
    let sn = SyncProductNet::build(&net, &initial, &final_m, &make_trace("c", &["A", "B"]));
    assert_eq!(sn.n_trace_places, 3);
    // trace places 0..3, then p_start, p1, p_end
    assert_eq!(sn.initial_marking, vec![1, 0, 0, 1, 0, 0]);
    assert_eq!(sn.goal_marking, vec![0, 0, 1, 0, 0, 1]);
    // 2 sync moves, 2 log moves, 2 model moves
    assert_eq!(sn.transitions.len(), 6);
    assert_eq!(sn.transitions[0].preset, vec![0, 3]);
    assert_eq!(sn.transitions[0].postset, vec![1, 4]);
    assert_eq!(sn.transitions[2].preset, vec![0]);
    assert_eq!(sn.transitions[2].cost, LOG_MOVE_COST);
    assert_eq!(sn.transitions[5].preset, vec![4]);
    assert_eq!(sn.transitions[5].postset, vec![5]);
    assert_eq!(sn.transitions[5].trace_label, None);
}

#[test]
fn unreachable_final_marking_has_no_alignment() {
    let mut net = PetriNet::new("stuck");
    net.add_place("p_start");
    net.add_place("p_end");
    net.add_transition("t_A", Some("A".into()));
    net.add_arc("p_start", "t_A");
    let mut initial = Marking::new();
    initial.insert("p_start".into(), 1);
    let mut final_m = Marking::new();
    final_m.insert("p_end".into(), 1);
    let result = align_trace(&net, &initial, &final_m, &make_trace("1", &["A"]));
    assert_eq!(result.cost, None);
    assert!(!result.is_fit);
    assert!(result.alignment.is_empty());
}

/// Two silent routes from p0 to p_end: one of two steps through a pair of
/// places, one of three steps through a chain. The cheaper one is found
/// although its intermediate marking carries the larger estimate.
#[test]
fn cheapest_alignment_through_split_places() {
    let mut net = PetriNet::new("routes");
    for p in ["p0", "p1", "p2", "q", "r", "p_end", "p_f"] {
        net.add_place(p);
    }
    for t in ["t_a", "t_x", "t_b", "t_c", "t_d"] {
        net.add_transition(t, None);
    }
    net.add_transition("t_A", Some("A".into()));
    net.add_arc("p0", "t_a");
    net.add_arc("t_a", "p1");
    net.add_arc("t_a", "p2");
    net.add_arc("p1", "t_x");
    net.add_arc("p2", "t_x");
    net.add_arc("t_x", "p_end");
    net.add_arc("p0", "t_b");
    net.add_arc("t_b", "q");
    net.add_arc("q", "t_c");
    net.add_arc("t_c", "r");
    net.add_arc("r", "t_d");
    net.add_arc("t_d", "p_end");
    net.add_arc("p_end", "t_A");
    net.add_arc("t_A", "p_f");
    let mut initial = Marking::new();
    initial.insert("p0".into(), 1);
    let mut final_m = Marking::new();
    final_m.insert("p_f".into(), 1);
    let result = align_trace(&net, &initial, &final_m, &make_trace("1", &["A"]));
    assert_eq!(result.cost, Some(2 * TAU_COST));
    assert_eq!(result.alignment.len(), 3);
}
