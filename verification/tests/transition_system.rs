use pm4wasm::discovery::transition_system::discover_transition_system;
use pm4wasm::event_log::{Event, EventLog, Trace};

fn ev(name: &str) -> Event {
    Event { name: name.to_string(), timestamp: None, lifecycle: None, attributes: vec![] }
}

fn create_test_log() -> EventLog {
    EventLog {
        traces: vec![
            Trace { case_id: "1".to_string(), events: vec![ev("A"), ev("B"), ev("C")] },
            Trace { case_id: "2".to_string(), events: vec![ev("A"), ev("B")] },
        ],
    }
}

#[test]
fn test_transition_system_simple() {
    let log = create_test_log();
    let ts = discover_transition_system(&log, 2, "forward");
    assert!(!ts.states.is_empty());
    assert!(!ts.transitions.is_empty());
}

#[test]
fn test_transition_system_window_size() {
    let log = create_test_log();
    let ts_small = discover_transition_system(&log, 1, "forward");
    let ts_large = discover_transition_system(&log, 3, "forward");
    assert!(ts_large.states.len() <= ts_small.states.len());
}

#[test]
fn transition_system_forward_states_and_counts() {
    let log = create_test_log();
    let ts = discover_transition_system(&log, 1, "forward");
    let names: Vec<&str> = ts.states.iter().map(|s| s.name.as_str()).collect();
    assert_eq!(names, vec!["A", "A, B", "B, C"]);
    for (j, s) in ts.states.iter().enumerate() {
        assert_eq!(s.id, j);
        assert_eq!(ts.state_map[j], (s.name.clone(), j));
    }
    assert_eq!(ts.transitions.len(), 2);
    let first = &ts.transitions[0];
    assert_eq!((first.from_state, first.to_state, first.activity.as_str(), first.count), (0, 1, "B", 2));
    let second = &ts.transitions[1];
    assert_eq!((second.from_state, second.to_state, second.activity.as_str(), second.count), (1, 2, "C", 1));
}

#[test]
fn transition_system_backward_window_looks_ahead() {
    let log = create_test_log();
    let ts = discover_transition_system(&log, 1, "backward");
    let names: Vec<&str> = ts.states.iter().map(|s| s.name.as_str()).collect();
    assert_eq!(names, vec!["A, B", "B, C", "C", "B"]);
}

#[test]
fn transition_system_of_empty_traces_is_empty() {
    let log = EventLog { traces: vec![Trace { case_id: "x".to_string(), events: vec![] }] };
    let ts = discover_transition_system(&log, 2, "forward");
    assert!(ts.states.is_empty());
    assert!(ts.transitions.is_empty());
}
