use pm4wasm::discovery::batches::{batches_from_seconds, discover_batches, BatchType};
use pm4wasm::event_log::{Event, EventLog, Trace};

fn ts(minute: i64) -> String {
    format!("2024-01-01T00:{:02}:00+00:00", minute)
}

fn event(name: &str, minute: i64) -> Event {
    Event { name: name.to_string(), timestamp: Some(ts(minute)), lifecycle: None, attributes: vec![] }
}

#[test]
fn test_empty_log_returns_no_batches() {
    let log = EventLog { traces: vec![] };
    let result = discover_batches(&log);
    assert_eq!(result.total_batches, 0);
    assert!(result.batches.is_empty());
}

#[test]
fn test_log_without_timestamps_returns_no_batches() {
    let traces = vec![Trace {
        case_id: "c1".to_string(),
        events: vec![
            Event { name: "A".into(), timestamp: None, lifecycle: None, attributes: vec![] },
            Event { name: "B".into(), timestamp: None, lifecycle: None, attributes: vec![] },
        ],
    }];
    assert_eq!(discover_batches(&EventLog { traces }).total_batches, 0);
}

#[test]
fn test_detects_sequential_batches() {
    let traces = vec![
        Trace { case_id: "case1".into(), events: vec![event("Check", 0), event("Approve", 3)] },
        Trace { case_id: "case2".into(), events: vec![event("Check", 1), event("Approve", 4)] },
        Trace { case_id: "case3".into(), events: vec![event("Check", 2), event("Approve", 5)] },
    ];
    let result = discover_batches(&EventLog { traces });
    assert!(result.total_batches >= 1);
    let check = result.batches.iter().find(|b| b.activity == "Check").unwrap();
    assert_eq!(check.size, 3);
    assert!(check.case_ids.contains(&"case1".into()));
    assert!(check.case_ids.contains(&"case2".into()));
    assert!(check.case_ids.contains(&"case3".into()));
}

#[test]
fn test_single_event_per_activity_no_batch() {
    let log = EventLog { traces: vec![Trace { case_id: "c1".into(), events: vec![event("A", 0), event("B", 1)] }] };
    assert_eq!(discover_batches(&log).total_batches, 0);
}

#[test]
fn test_parallel_batch_identical_timestamps() {
    let traces = vec![
        Trace { case_id: "case1".into(), events: vec![event("Print", 10)] },
        Trace { case_id: "case2".into(), events: vec![event("Print", 10)] },
    ];
    let result = discover_batches(&EventLog { traces });
    assert_eq!(result.total_batches, 1);
    assert_eq!(result.batches[0].batch_type, BatchType::Parallel);
    assert_eq!(result.batches[0].size, 2);
}

#[test]
fn test_disruptive_batch_large_size() {
    let traces: Vec<Trace> =
        (0..6).map(|i| Trace { case_id: format!("case{}", i + 1), events: vec![event("Ship", i)] }).collect();
    let result = discover_batches(&EventLog { traces });
    let ship = result.batches.iter().find(|b| b.activity == "Ship").unwrap();
    assert_eq!(ship.size, 6);
    assert_eq!(ship.batch_type, BatchType::Disruptive);
}

#[test]
fn batches_split_on_gaps_over_fifteen_minutes() {
    let traces = vec![
        Trace { case_id: "a".into(), events: vec![event("X", 0)] },
        Trace { case_id: "b".into(), events: vec![event("X", 15)] },
        Trace { case_id: "c".into(), events: vec![event("X", 31)] },
        Trace { case_id: "d".into(), events: vec![event("X", 32)] },
        Trace { case_id: "e".into(), events: vec![event("X", 33)] },
    ];
    let result = discover_batches(&EventLog { traces });
    assert_eq!(result.total_batches, 2);
    assert_eq!(result.batches[0].case_ids, vec!["c".to_string(), "d".to_string(), "e".to_string()]);
    assert_eq!(result.batches[0].batch_type, BatchType::Concurrent);
    assert_eq!(result.batches[0].start_time, Some(ts(31)));
    assert_eq!(result.batches[0].end_time, Some(ts(31)));
    assert_eq!(result.batches[1].case_ids, vec!["a".to_string(), "b".to_string()]);
}

#[test]
fn batches_from_given_seconds() {
    let log = EventLog {
        traces: vec![
            Trace { case_id: "a".into(), events: vec![event("X", 0)] },
            Trace { case_id: "b".into(), events: vec![event("X", 1)] },
        ],
    };
    let same = batches_from_seconds(&log, &vec![vec![Some(100)], vec![Some(100)]]);
    assert_eq!(same.total_batches, 1);
    assert_eq!(same.batches[0].batch_type, BatchType::Parallel);
    let apart = batches_from_seconds(&log, &vec![vec![Some(100)], vec![Some(1001)]]);
    assert_eq!(apart.total_batches, 0);
    let missing = batches_from_seconds(&log, &vec![vec![None], vec![Some(100)]]);
    assert_eq!(missing.total_batches, 0);
}
