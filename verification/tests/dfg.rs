use pm4wasm::discovery::dfg::{discover_dfg, discover_dfg_typed, discover_eventually_follows_graph};
use pm4wasm::event_log::{parse_csv, EventLog};

fn make_test_log() -> EventLog {
    parse_csv(
        "case_id,activity,timestamp\n\
         1,A,2020-01-01T10:00:00\n\
         1,B,2020-01-01T10:05:00\n\
         2,A,2020-01-01T11:00:00\n\
         2,B,2020-01-01T11:03:00\n\
         2,C,2020-01-01T11:10:00\n\
         3,A,2020-01-02T09:00:00\n\
         3,C,2020-01-02T09:30:00\n",
    )
    .unwrap()
}

#[test]
fn test_discover_dfg() {
    let log = make_test_log();
    let dfg = discover_dfg(&log);
    assert!(dfg.edges.iter().any(|e| e.source == "A" && e.target == "B"));
    assert!(dfg.edges.iter().any(|e| e.source == "A" && e.target == "C"));
    assert!(dfg.edges.iter().any(|e| e.source == "B" && e.target == "C"));
}

#[test]
fn test_start_end_activities() {
    let log = make_test_log();
    let dfg = discover_dfg(&log);
    assert_eq!(dfg.start_activities.len(), 1);
    assert_eq!(dfg.start_activities[0].0, "A");
    assert_eq!(dfg.start_activities[0].1, 3);
    assert_eq!(dfg.end_activities.len(), 2);
}

#[test]
fn test_eventually_follows() {
    let log = make_test_log();
    let efg = discover_eventually_follows_graph(&log);
    assert!(efg.iter().any(|e| e.source == "A" && e.target == "C"));
    assert!(efg.iter().any(|e| e.source == "B" && e.target == "C"));
}

#[test]
fn dfg_edge_counts_are_exact_and_sorted() {
    let log = make_test_log();
    let dfg = discover_dfg(&log);
    assert_eq!(dfg.edges.len(), 3);
    assert_eq!(dfg.edges[0].source, "A");
    assert_eq!(dfg.edges[0].target, "B");
    assert_eq!(dfg.edges[0].count, 2);
    assert_eq!(dfg.edges[1].count, 1);
    assert_eq!(dfg.edges[2].count, 1);
    let a = dfg.activities.iter().find(|p| p.0 == "A").unwrap();
    assert_eq!(a.1, 3);
    let c = dfg.activities.iter().find(|p| p.0 == "C").unwrap();
    assert_eq!(c.1, 2);
    assert_eq!(dfg.activities[0].0, "A");
    let end_c = dfg.end_activities.iter().find(|p| p.0 == "C").unwrap();
    assert_eq!(end_c.1, 2);
}

#[test]
fn eventually_follows_counts_every_later_pair() {
    let log = parse_csv("case_id,activity\n1,A\n1,B\n1,A\n").unwrap();
    let efg = discover_eventually_follows_graph(&log);
    let ab = efg.iter().find(|e| e.source == "A" && e.target == "B").unwrap();
    assert_eq!(ab.count, 1);
    let aa = efg.iter().find(|e| e.source == "A" && e.target == "A").unwrap();
    assert_eq!(aa.count, 1);
    let ba = efg.iter().find(|e| e.source == "B" && e.target == "A").unwrap();
    assert_eq!(ba.count, 1);
    assert_eq!(efg.len(), 3);
}

#[test]
fn dfg_typed_matches_dfg() {
    let log = make_test_log();
    let typed = discover_dfg_typed(&log);
    assert_eq!(typed.graph.len(), 3);
    assert_eq!(typed.graph[0], ("A".to_string(), "B".to_string(), 2u32));
    assert_eq!(typed.start_activities, vec![("A".to_string(), 3u32)]);
    assert_eq!(typed.activities.len(), 3);
}

#[test]
fn dfg_of_empty_log_is_empty() {
    let log = EventLog { traces: vec![] };
    let dfg = discover_dfg(&log);
    assert!(dfg.edges.is_empty());
    assert!(dfg.activities.is_empty());
    assert!(dfg.start_activities.is_empty());
}
