use pm4wasm::event_log::{parse_csv, Event, EventLog, Trace};

#[test]
fn parse_simple_csv() {
    let csv = "case_id,activity,timestamp\n\
               1,A,2020-01-01\n\
               1,B,2020-01-02\n\
               2,A,2020-01-03\n\
               2,C,2020-01-04\n";
    let log = parse_csv(csv).unwrap();
    assert_eq!(log.traces.len(), 2);
    assert_eq!(log.traces[0].case_id, "1");
    assert_eq!(log.traces[0].events.len(), 2);
    assert_eq!(log.traces[0].events[0].name, "A");
    assert_eq!(log.traces[1].events[1].name, "C");
}

#[test]
fn csv_case_column_aliases() {
    let csv = "case:concept:name,concept:name\n\
               x,A\n\
               x,B\n";
    let log = parse_csv(csv).unwrap();
    assert_eq!(log.traces[0].case_id, "x");
    assert_eq!(log.traces[0].events.len(), 2);
}

#[test]
fn activities_and_variants() {
    let csv = "case_id,activity\n\
               1,A\n\
               1,B\n\
               2,A\n\
               2,B\n\
               3,A\n\
               3,C\n";
    let log = parse_csv(csv).unwrap();
    let acts = log.activities();
    assert_eq!(acts, vec!["A", "B", "C"]);

    let vars = log.variants();
    let count_of = |v: Vec<String>| vars.iter().find(|(k, _)| *k == v).map(|(_, c)| *c);
    assert_eq!(count_of(vec!["A".into(), "B".into()]), Some(2));
    assert_eq!(count_of(vec!["A".into(), "C".into()]), Some(1));
}

#[test]
fn csv_errors() {
    assert_eq!(parse_csv("").unwrap_err(), "CSV is empty");
    assert_eq!(parse_csv("activity\nA\n").unwrap_err(), "CSV missing case_id column");
    assert_eq!(parse_csv("case\nc1\n").unwrap_err(), "CSV missing activity column");
}

#[test]
fn csv_header_case_insensitive_trim_and_blank_rows() {
    let csv = " Case_ID , ACTIVITY ,Timestamp\r\n\
               c1 , A , \r\n\
               \r\n\
               c2,B,t2\r\n\
               c1,,t3\r\n\
               c1,C,t4";
    let log = parse_csv(csv).unwrap();
    assert_eq!(log.traces.len(), 2);
    assert_eq!(log.traces[0].case_id, "c1");
    assert_eq!(log.traces[0].events.len(), 2);
    assert_eq!(log.traces[0].events[0].name, "A");
    assert_eq!(log.traces[0].events[0].timestamp, None);
    assert_eq!(log.traces[0].events[1].name, "C");
    assert_eq!(log.traces[0].events[1].timestamp.as_deref(), Some("t4"));
    assert_eq!(log.traces[1].case_id, "c2");
}

#[test]
fn csv_missing_case_cell_uses_line_number() {
    let csv = "activity,case_id\nA\nB,c\n";
    let log = parse_csv(csv).unwrap();
    assert_eq!(log.traces.len(), 2);
    assert_eq!(log.traces[0].case_id, "case_0");
    assert_eq!(log.traces[1].case_id, "c");
}

#[test]
fn activities_sorted_by_code_point() {
    let log = EventLog {
        traces: vec![Trace {
            case_id: "1".to_string(),
            events: vec![
                Event { name: "b".to_string(), timestamp: None, lifecycle: None, attributes: Vec::new() },
                Event { name: "B".to_string(), timestamp: None, lifecycle: None, attributes: Vec::new() },
                Event { name: "ab".to_string(), timestamp: None, lifecycle: None, attributes: Vec::new() },
                Event { name: "a".to_string(), timestamp: None, lifecycle: None, attributes: Vec::new() },
                Event { name: "b".to_string(), timestamp: None, lifecycle: None, attributes: Vec::new() },
            ],
        }],
    };
    assert_eq!(log.activities(), vec!["B", "a", "ab", "b"]);
}
