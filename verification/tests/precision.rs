use pm4wasm::conformance::precision::precision_for_trace;
use pm4wasm::event_log::{Event, EventLog, Trace};
use pm4wasm::petri_net::{Marking, PetriNet};

/// Build a simple sequential net: [p_start] -> t_A -> [p1] -> t_B -> [p_end]
fn sequential_net() -> (PetriNet, Marking, Marking) {
    let mut net = PetriNet::new("seq");
    net.add_place("p_start");
    net.add_place("p1");
    net.add_place("p_end");
    net.add_transition("t_A", Some("A".into()));
    net.add_transition("t_B", Some("B".into()));
    net.add_arc("p_start", "t_A");
    net.add_arc("t_A", "p1");
    net.add_arc("p1", "t_B");
    net.add_arc("t_B", "p_end");

    let mut initial = Marking::new();
    initial.insert("p_start".into(), 1);
    let mut final_m = Marking::new();
    final_m.insert("p_end".into(), 1);

    (net, initial, final_m)
}

fn make_log(cases: &[&[&str]]) -> EventLog {
    EventLog {
        traces: cases
            .iter()
            .enumerate()
            .map(|(i, acts)| Trace {
                case_id: format!("c{}", i + 1),
                events: acts
                    .iter()
                    .map(|&a| Event { name: a.to_string(), timestamp: None, lifecycle: None, attributes: Vec::new() })
                    .collect(),
            })
            .collect(),
    }
}

/// (precision, total escaping, total consumed, traces)
fn compute_precision(net: &PetriNet, initial: &Marking, final_m: &Marking, log: &EventLog) -> (f64, u32, u32, usize) {
    let mut e_total: u32 = 0;
    let mut c_total: u32 = 0;
    for t in &log.traces {
        let (e, c) = precision_for_trace(net, initial, final_m, t);
        e_total += e;
        c_total += c;
    }
    let precision = if c_total == 0 && e_total == 0 {
        1.0
    } else {
        let e = e_total as f64;
        let c = c_total as f64;
        (1.0 - e / (e + c)).clamp(0.0, 1.0)
    };
    (precision, e_total, c_total, log.traces.len())
}

#[test]
fn test_perfect_log_high_precision() {
    let (net, initial, final_m) = sequential_net();
    let log = make_log(&[&["A", "B"], &["A", "B"]]);
    let (precision, _, _, _) = compute_precision(&net, &initial, &final_m, &log);
    assert!(precision >= 0.5);
}

#[test]
fn test_precision_between_zero_and_one() {
    let (net, initial, final_m) = sequential_net();
    let log = make_log(&[&["A", "B"]]);
    let (precision, _, _, _) = compute_precision(&net, &initial, &final_m, &log);
    assert!(precision >= 0.0);
    assert!(precision <= 1.0);
}

#[test]
fn test_empty_log_returns_one() {
    let (net, initial, final_m) = sequential_net();
    let log = make_log(&[]);
    let (precision, escaping, consumed, traces) = compute_precision(&net, &initial, &final_m, &log);
    assert!((precision - 1.0).abs() < 1e-9);
    assert_eq!(escaping, 0);
    assert_eq!(consumed, 0);
    assert_eq!(traces, 0);
}

#[test]
fn test_single_trace_count() {
    let (net, initial, final_m) = sequential_net();
    let log = make_log(&[&["A", "B"]]);
    let (_, _, _, traces) = compute_precision(&net, &initial, &final_m, &log);
    assert_eq!(traces, 1);
}

#[test]
fn precision_counts_escaping_edges() {
    let (net, initial, final_m) = sequential_net();
    // After A, t_B is enabled and not labelled A: one escaping token.
    // After B nothing is enabled. Consumed: 1 + 1 + final 1.
    let t = &make_log(&[&["A", "B"]]).traces[0];
    assert_eq!(precision_for_trace(&net, &initial, &final_m, t), (1, 3));
    // An unknown activity changes nothing.
    let t = &make_log(&[&["X"]]).traces[0];
    assert_eq!(precision_for_trace(&net, &initial, &final_m, t), (0, 1));
}
