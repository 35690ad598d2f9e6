use pm4wasm::binary_relation::BinaryRelation;
use pm4wasm::event_log::{Event, EventLog, Trace};
use pm4wasm::footprints::{
    discover_from_log, footprint_counts, footprints_of_loop, footprints_of_partial_order, footprints_of_transition,
    footprints_of_xor, merge_footprints, Footprints,
};

fn make_log(traces: Vec<(&str, &[&str])>) -> EventLog {
    EventLog {
        traces: traces
            .into_iter()
            .map(|(case_id, acts)| Trace {
                case_id: case_id.to_string(),
                events: acts
                    .iter()
                    .map(|&a| Event { name: a.to_string(), timestamp: None, lifecycle: None, attributes: Vec::new() })
                    .collect(),
            })
            .collect(),
    }
}

fn make_model_fp(activities: &[&str], sequence: &[(&str, &str)]) -> Footprints {
    let acts: Vec<String> = activities.iter().map(|s| s.to_string()).collect();
    let start = if activities.is_empty() { vec![] } else { vec![activities[0].to_string()] };
    let end = if activities.is_empty() { vec![] } else { vec![activities[activities.len() - 1].to_string()] };
    Footprints {
        start_activities: start,
        end_activities: end,
        activities: acts,
        skippable: false,
        sequence: sequence.iter().map(|(a, b)| (a.to_string(), b.to_string())).collect(),
        parallel: vec![],
        activities_always_happening: vec![],
        min_trace_length: activities.len(),
    }
}

/// (fitness, precision) from the counts, as footprints conformance computes them.
fn ratios(log: &EventLog, model_fp: &Footprints) -> (f64, f64) {
    let c = footprint_counts(log, model_fp);
    let fitness = if c.log_pairs == 0 { 1.0 } else { c.matching as f64 / c.log_pairs as f64 };
    let precision = if c.model_pairs == 0 { 1.0 } else { c.matching as f64 / c.model_pairs as f64 };
    (fitness, precision)
}

fn sorted(v: &[String]) -> Vec<String> {
    let mut v = v.to_vec();
    v.sort();
    v.dedup();
    v
}

fn sorted_pairs(v: &[(String, String)]) -> Vec<(String, String)> {
    let mut v = v.to_vec();
    v.sort();
    v.dedup();
    v
}

fn s(x: &str) -> String {
    x.to_string()
}

fn p(a: &str, b: &str) -> (String, String) {
    (a.to_string(), b.to_string())
}

#[test]
fn perfect_conformance() {
    let log = make_log(vec![("1", &["A", "B", "C"]), ("2", &["A", "B", "C"])]);
    let model_fp = make_model_fp(&["A", "B", "C"], &[("A", "B"), ("B", "C")]);
    let (fitness, precision) = ratios(&log, &model_fp);
    assert!((fitness - 1.0).abs() < 1e-9);
    assert!((precision - 1.0).abs() < 1e-9);
}

#[test]
fn imperfect_fitness_extra_pair() {
    let log = make_log(vec![("1", &["A", "B", "C", "A"])]);
    let model_fp = make_model_fp(&["A", "B", "C"], &[("A", "B"), ("B", "C")]);
    let (fitness, precision) = ratios(&log, &model_fp);
    assert!(fitness < 1.0);
    assert!(precision > 0.0);
}

#[test]
fn imperfect_precision_missing_pair() {
    let log = make_log(vec![("1", &["A", "B"])]);
    let model_fp = make_model_fp(&["A", "B", "C"], &[("A", "B"), ("B", "C")]);
    let (fitness, precision) = ratios(&log, &model_fp);
    assert!((fitness - 1.0).abs() < 1e-9);
    assert!(precision < 1.0);
}

#[test]
fn empty_log() {
    let log = make_log(vec![]);
    let model_fp = make_model_fp(&["A"], &[]);
    let (fitness, _) = ratios(&log, &model_fp);
    assert!((fitness - 1.0).abs() < 1e-9);
}

#[test]
fn footprint_counts_are_exact() {
    let log = make_log(vec![("1", &["A", "B", "C", "A"]), ("2", &["A", "B"])]);
    let model_fp = make_model_fp(&["A", "B", "C"], &[("A", "B"), ("B", "C"), ("A", "B")]);
    let c = footprint_counts(&log, &model_fp);
    assert_eq!((c.log_pairs, c.matching, c.model_pairs), (3, 2, 2));
}

#[test]
fn transition_footprints() {
    let a = footprints_of_transition(Some("A"));
    assert_eq!(a.start_activities, vec![s("A")]);
    assert_eq!(a.end_activities, vec![s("A")]);
    assert!(!a.skippable);
    assert_eq!(a.min_trace_length, 1);
    let tau = footprints_of_transition(None);
    assert!(tau.skippable);
    assert_eq!(tau.min_trace_length, 0);
    assert!(tau.activities.is_empty());
}

#[test]
fn xor_footprints() {
    let fp = footprints_of_xor(&vec![footprints_of_transition(Some("A")), footprints_of_transition(Some("B"))]);
    assert_eq!(sorted(&fp.start_activities), vec![s("A"), s("B")]);
    assert!(!fp.skippable);
    assert!(fp.activities_always_happening.is_empty());
    assert_eq!(fp.min_trace_length, 1);
    let fp = footprints_of_xor(&vec![footprints_of_transition(Some("A")), footprints_of_transition(None)]);
    assert!(fp.skippable);
    assert_eq!(fp.activities_always_happening, vec![s("A")]);
    assert_eq!(fp.min_trace_length, 0);
}

#[test]
fn loop_footprints() {
    let fp = footprints_of_loop(&footprints_of_transition(Some("A")), &footprints_of_transition(Some("B")));
    assert_eq!(sorted(&fp.start_activities), vec![s("A")]);
    // A→B and B→A both occur, so the pair becomes parallel.
    assert!(fp.sequence.is_empty());
    assert_eq!(sorted_pairs(&fp.parallel), vec![p("A", "B"), p("B", "A")]);
    let fp = footprints_of_loop(&footprints_of_transition(Some("A")), &footprints_of_transition(None));
    // A can follow itself; a pair that is its own reverse counts as parallel.
    assert!(fp.sequence.is_empty());
    assert_eq!(sorted_pairs(&fp.parallel), vec![p("A", "A")]);
    assert_eq!(fp.min_trace_length, 1);
}

#[test]
fn partial_order_footprints() {
    let parts = vec![footprints_of_transition(Some("A")), footprints_of_transition(Some("B")), footprints_of_transition(Some("C"))];
    // A → B, and C unordered.
    let mut order = BinaryRelation::new(3);
    order.add_edge(0, 1);
    let fp = footprints_of_partial_order(&parts, &order);
    assert_eq!(sorted(&fp.start_activities), vec![s("A"), s("C")]);
    assert_eq!(sorted(&fp.end_activities), vec![s("B"), s("C")]);
    assert_eq!(sorted_pairs(&fp.sequence), vec![p("A", "B")]);
    assert_eq!(sorted_pairs(&fp.parallel), vec![p("A", "C"), p("B", "C"), p("C", "A"), p("C", "B")]);
    assert_eq!(fp.min_trace_length, 3);
    assert_eq!(sorted(&fp.activities_always_happening), vec![s("A"), s("B"), s("C")]);

    // A → tau → C: the skippable middle lets A be followed directly by C.
    let parts = vec![footprints_of_transition(Some("A")), footprints_of_transition(None), footprints_of_transition(Some("C"))];
    let mut order = BinaryRelation::new(3);
    order.add_edge(0, 1);
    order.add_edge(1, 2);
    let fp = footprints_of_partial_order(&parts, &order);
    assert_eq!(sorted_pairs(&fp.sequence), vec![p("A", "C")]);
    assert_eq!(sorted(&fp.start_activities), vec![s("A")]);
    assert_eq!(sorted(&fp.end_activities), vec![s("C")]);
    assert_eq!(fp.min_trace_length, 2);
}

#[test]
fn merged_footprints_join_parts() {
    let fp = merge_footprints(&vec![footprints_of_transition(Some("A")), footprints_of_transition(None)]);
    assert_eq!(sorted(&fp.activities), vec![s("A")]);
    assert!(!fp.skippable);
    let none = merge_footprints(&vec![]);
    assert!(none.skippable);
}

#[test]
fn log_footprints() {
    let log = make_log(vec![("1", &["A", "B", "C"]), ("2", &["A", "C", "B"])]);
    let fp = discover_from_log(&log);
    assert_eq!(sorted(&fp.start_activities), vec![s("A")]);
    assert_eq!(sorted(&fp.end_activities), vec![s("B"), s("C")]);
    assert_eq!(sorted(&fp.activities), vec![s("A"), s("B"), s("C")]);
    assert_eq!(sorted_pairs(&fp.sequence), vec![p("A", "B"), p("A", "C")]);
    assert_eq!(sorted_pairs(&fp.parallel), vec![p("B", "C"), p("C", "B")]);
    assert_eq!(fp.min_trace_length, 1);
}
