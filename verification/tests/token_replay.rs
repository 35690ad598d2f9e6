use pm4wasm::conformance::token_replay::{replay_trace, TraceReplayResult};
use pm4wasm::event_log::{Event, EventLog, Trace};
use pm4wasm::petri_net::{Marking, PetriNet};

/// Build a simple sequential net: [p_start] → t_A → [p1] → t_B → [p_end]
fn sequential_net() -> (PetriNet, Marking, Marking) {
    let mut net = PetriNet::new("seq");
    net.add_place("p_start");
    net.add_place("p1");
    net.add_place("p_end");
    net.add_transition("t_A", Some("A".into()));
    net.add_transition("t_B", Some("B".into()));
    net.add_arc("p_start", "t_A");
    net.add_arc("t_A", "p1");
    net.add_arc("p1", "t_B");
    net.add_arc("t_B", "p_end");

    let mut initial = Marking::new();
    initial.insert("p_start".into(), 1);
    let mut final_m = Marking::new();
    final_m.insert("p_end".into(), 1);

    (net, initial, final_m)
}

fn make_trace(case_id: &str, acts: &[&str]) -> Trace {
    Trace {
        case_id: case_id.to_string(),
        events: acts
            .iter()
            .map(|&a| Event { name: a.to_string(), timestamp: None, lifecycle: None, attributes: Vec::new() })
            .collect(),
    }
}

fn fitness_of(produced: u32, consumed: u32, missing: u32, remaining: u32) -> f64 {
    if produced == 0 && consumed == 0 {
        if missing == 0 { 1.0 } else { 0.0 }
    } else {
        let c = consumed as f64;
        let p = produced as f64;
        let m = missing as f64;
        let r = remaining as f64;
        (0.5 * (1.0 - m / c) + 0.5 * (1.0 - r / p)).clamp(0.0, 1.0)
    }
}

fn fitness(r: &TraceReplayResult) -> f64 {
    fitness_of(r.produced_tokens, r.consumed_tokens, r.missing_tokens, r.remaining_tokens)
}

/// (perfectly fitting traces, total traces, token-weighted fitness, average fitness)
fn log_fitness(net: &PetriNet, initial: &Marking, final_m: &Marking, log: &EventLog) -> (usize, usize, f64, f64) {
    let results: Vec<TraceReplayResult> = log.traces.iter().map(|t| replay_trace(net, initial, final_m, t)).collect();
    let perfect = results.iter().filter(|r| r.is_perfect()).count();
    let avg = results.iter().map(fitness).sum::<f64>() / results.len() as f64;
    let p: u32 = results.iter().map(|r| r.produced_tokens).sum();
    let c: u32 = results.iter().map(|r| r.consumed_tokens).sum();
    let m: u32 = results.iter().map(|r| r.missing_tokens).sum();
    let rem: u32 = results.iter().map(|r| r.remaining_tokens).sum();
    (perfect, results.len(), fitness_of(p, c, m, rem), avg)
}

#[test]
fn perfect_trace_fitness_1() {
    let (net, initial, final_m) = sequential_net();
    let trace = make_trace("c1", &["A", "B"]);
    let result = replay_trace(&net, &initial, &final_m, &trace);
    assert_eq!(result.missing_tokens, 0);
    assert_eq!(result.remaining_tokens, 0);
    assert!((fitness(&result) - 1.0).abs() < 1e-9);
    assert!(result.is_perfect());
}

#[test]
fn missing_activity_lowers_fitness() {
    let (net, initial, final_m) = sequential_net();
    // Trace only has A, skips B
    let trace = make_trace("c1", &["A"]);
    let result = replay_trace(&net, &initial, &final_m, &trace);
    // p1 has a token but isn't the final place → remaining = 1
    assert_eq!(result.remaining_tokens, 1);
    assert!(fitness(&result) < 1.0);
}

#[test]
fn extra_activity_forces_missing_token() {
    let (net, initial, final_m) = sequential_net();
    // B comes before A — B's preset (p1) is empty → missing token
    let trace = make_trace("c1", &["B", "A"]);
    let result = replay_trace(&net, &initial, &final_m, &trace);
    assert!(result.missing_tokens > 0);
    assert!(fitness(&result) < 1.0);
}

#[test]
fn log_level_fitness_all_perfect() {
    let (net, initial, final_m) = sequential_net();
    let log = EventLog { traces: vec![make_trace("c1", &["A", "B"]), make_trace("c2", &["A", "B"])] };
    let (perfect, _total, percentage, avg) = log_fitness(&net, &initial, &final_m, &log);
    assert_eq!(perfect, 2);
    assert!((percentage - 1.0).abs() < 1e-9);
    assert!((avg - 1.0).abs() < 1e-9);
}

#[test]
fn log_level_fitness_mixed() {
    let (net, initial, final_m) = sequential_net();
    let log = EventLog {
        traces: vec![
            make_trace("c1", &["A", "B"]), // perfect
            make_trace("c2", &["A"]),      // imperfect
        ],
    };
    let (perfect, total, percentage, _avg) = log_fitness(&net, &initial, &final_m, &log);
    assert_eq!(perfect, 1);
    assert_eq!(total, 2);
    assert!(percentage < 1.0 && percentage > 0.0);
}

#[test]
fn replay_counts_exactly() {
    let (net, initial, final_m) = sequential_net();
    let r = replay_trace(&net, &initial, &final_m, &make_trace("c9", &["A", "B"]));
    assert_eq!(r.case_id, "c9");
    assert_eq!(r.produced_tokens, 3);
    assert_eq!(r.consumed_tokens, 3);
    assert_eq!(r.activated_transitions, vec!["t_A".to_string(), "t_B".to_string()]);
    assert_eq!(r.reached_marking, vec![("p_end".to_string(), 1)]);
    assert!(r.trace_is_fit);

    // B first: p1 gets a missing token, then A leaves a token on p1.
    let r = replay_trace(&net, &initial, &final_m, &make_trace("c2", &["B", "A"]));
    assert_eq!(r.missing_tokens, 1);
    assert_eq!(r.produced_tokens, 4);
    assert_eq!(r.consumed_tokens, 3);
    assert_eq!(r.remaining_tokens, 1);
    assert_eq!(r.reached_marking, vec![("p1".to_string(), 1), ("p_end".to_string(), 1)]);
    assert!(!r.trace_is_fit);
    // Tokens are conserved: produced = left on the marking + consumed before the final marking.
    let left: u32 = r.reached_marking.iter().map(|e| e.1).sum();
    assert_eq!(r.produced_tokens, left + r.consumed_tokens - 1);
}

#[test]
fn unknown_activity_is_skipped() {
    let (net, initial, final_m) = sequential_net();
    let r = replay_trace(&net, &initial, &final_m, &make_trace("c", &["A", "X", "B"]));
    assert!(r.is_perfect());
    assert_eq!(r.activated_transitions.len(), 2);
}

#[test]
fn silent_transitions_fire_between_events() {
    // start → tau_split → (p_a, p_b); A: p_a → q_a; B: p_b → q_b; tau_join: (q_a, q_b) → end
    let mut net = PetriNet::new("par");
    for p in ["start", "p_a", "p_b", "q_a", "q_b", "end"] {
        net.add_place(p);
    }
    net.add_transition("split", None);
    net.add_transition("ta", Some("A".into()));
    net.add_transition("tb", Some("B".into()));
    net.add_transition("join", None);
    for (s, t) in [
        ("start", "split"), ("split", "p_a"), ("split", "p_b"), ("p_a", "ta"), ("ta", "q_a"),
        ("p_b", "tb"), ("tb", "q_b"), ("q_a", "join"), ("q_b", "join"), ("join", "end"),
    ] {
        net.add_arc(s, t);
    }
    let mut initial = Marking::new();
    initial.insert("start".into(), 1);
    let mut final_m = Marking::new();
    final_m.insert("end".into(), 1);
    let r = replay_trace(&net, &initial, &final_m, &make_trace("c", &["B", "A"]));
    assert!(r.is_perfect());
    assert_eq!(r.produced_tokens, 6);
    assert_eq!(r.consumed_tokens, 6);
    assert_eq!(r.activated_transitions, vec!["tb".to_string(), "ta".to_string()]);
    assert!((fitness(&r) - 1.0).abs() < 1e-9);
}

#[test]
fn enabled_candidate_is_preferred() {
    // Two transitions labelled A; only the second is enabled.
    let mut net = PetriNet::new("dup");
    net.add_place("p0");
    net.add_place("p1");
    net.add_place("p2");
    net.add_transition("a1", Some("A".into()));
    net.add_transition("a2", Some("A".into()));
    net.add_arc("p1", "a1");
    net.add_arc("p0", "a2");
    net.add_arc("a2", "p2");
    let mut initial = Marking::new();
    initial.insert("p0".into(), 1);
    let mut final_m = Marking::new();
    final_m.insert("p2".into(), 1);
    let r = replay_trace(&net, &initial, &final_m, &make_trace("c", &["A"]));
    assert_eq!(r.activated_transitions, vec!["a2".to_string()]);
    assert!(r.is_perfect());
    // With nothing enabled the first candidate fires with a missing token.
    let r = replay_trace(&net, &initial, &final_m, &make_trace("c", &["A", "A"]));
    assert_eq!(r.activated_transitions, vec!["a2".to_string(), "a1".to_string()]);
    assert_eq!(r.missing_tokens, 1);
}
