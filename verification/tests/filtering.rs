use pm4wasm::event_log::{parse_csv, EventLog};
use pm4wasm::filtering::activities::{
    filter_between, filter_directly_follows_relation, filter_end_activities,
    filter_eventually_follows_relation, filter_prefixes, filter_start_activities, filter_suffixes,
    filter_trim,
};
use pm4wasm::filtering::attributes::{filter_event_attribute_values, filter_trace_attribute};
use pm4wasm::filtering::case_size::filter_case_size;
use pm4wasm::filtering::time::filter_time_range;
use pm4wasm::filtering::variants::filter_variants_top_k;

fn make_test_log() -> EventLog {
    parse_csv(
        "case_id,activity,timestamp\n\
         1,A,2020-01-01T10:00:00\n\
         1,B,2020-01-01T10:05:00\n\
         2,A,2020-01-01T11:00:00\n\
         2,B,2020-01-01T11:03:00\n\
         2,C,2020-01-01T11:10:00\n\
         3,A,2020-01-02T09:00:00\n\
         3,C,2020-01-02T09:30:00\n",
    )
    .unwrap()
}

#[test]
fn test_filter_start_activities() {
    let log = make_test_log();
    let filtered = filter_start_activities(&log, &["A".to_string()]);
    assert_eq!(filtered.traces.len(), 3);
}

#[test]
fn test_filter_end_activities() {
    let log = make_test_log();
    let filtered = filter_end_activities(&log, &["B".to_string()]);
    assert_eq!(filtered.traces.len(), 1);
}

#[test]
fn test_filter_end_activities_multiple() {
    let log = make_test_log();
    let filtered = filter_end_activities(&log, &["B".to_string(), "C".to_string()]);
    assert_eq!(filtered.traces.len(), 3);
}

fn attr_log() -> EventLog {
    parse_csv(
        "case_id,activity,timestamp\n\
         1,A,2020-01-01T10:00:00\n\
         1,B,2020-01-01T10:05:00\n\
         2,A,2020-01-01T11:00:00\n\
         2,C,2020-01-01T11:10:00\n",
    )
    .unwrap()
}

#[test]
fn test_filter_event_attribute_values() {
    let log = attr_log();
    let filtered = filter_event_attribute_values(&log, "concept:name", &["B".to_string()], true);
    assert_eq!(filtered.traces.len(), 1);
    assert_eq!(filtered.traces[0].case_id, "1");
}

#[test]
fn test_filter_event_attribute_values_negative() {
    let log = attr_log();
    let filtered = filter_event_attribute_values(&log, "concept:name", &["C".to_string()], false);
    assert_eq!(filtered.traces.len(), 1);
    assert_eq!(filtered.traces[0].case_id, "1");
}

#[test]
fn test_filter_trace_attribute() {
    let log = attr_log();
    let filtered = filter_trace_attribute(&log, "concept:name", &["1".to_string()], true);
    assert_eq!(filtered.traces.len(), 1);
}

fn size_log() -> EventLog {
    parse_csv(
        "case_id,activity\n\
         1,A\n\
         1,B\n\
         2,A\n\
         2,B\n\
         2,C\n\
         3,A\n",
    )
    .unwrap()
}

#[test]
fn test_filter_case_size() {
    let log = size_log();
    let filtered = filter_case_size(&log, 2, 2);
    assert_eq!(filtered.traces.len(), 1);
    assert_eq!(filtered.traces[0].case_id, "1");
}

#[test]
fn test_filter_case_size_min_only() {
    let log = size_log();
    let filtered = filter_case_size(&log, 2, 0);
    assert_eq!(filtered.traces.len(), 2);
}

fn time_log() -> EventLog {
    parse_csv(
        "case_id,activity,timestamp\n\
         1,A,2020-01-01T10:00:00\n\
         1,B,2020-01-01T10:05:00\n\
         2,A,2020-01-02T11:00:00\n\
         2,B,2020-01-02T11:03:00\n\
         2,C,2020-01-02T11:10:00\n",
    )
    .unwrap()
}

#[test]
fn test_filter_time_range() {
    let log = time_log();
    let start = chrono::NaiveDate::from_ymd_opt(2020, 1, 1)
        .unwrap()
        .and_hms_opt(0, 0, 0)
        .unwrap()
        .and_utc()
        .timestamp_millis();
    let end = chrono::NaiveDate::from_ymd_opt(2020, 1, 1)
        .unwrap()
        .and_hms_opt(23, 59, 59)
        .unwrap()
        .and_utc()
        .timestamp_millis();
    let filtered = filter_time_range(&log, start, end);
    assert_eq!(filtered.traces.len(), 1);
    assert_eq!(filtered.traces[0].case_id, "1");
}

#[test]
fn test_filter_time_range_all() {
    let log = time_log();
    let filtered = filter_time_range(&log, 0, i64::MAX);
    assert_eq!(filtered.traces.len(), 2);
}

#[test]
fn test_filter_variants_top_k() {
    let log = make_test_log();
    let filtered = filter_variants_top_k(&log, 2);
    assert!(filtered.traces.len() <= 2);
}

#[test]
fn test_filter_variants_top_k_all() {
    let log = make_test_log();
    let filtered = filter_variants_top_k(&log, 100);
    assert_eq!(filtered.traces.len(), 3);
}

#[test]
fn top_k_prefers_frequent_variant() {
    let log = parse_csv("case,activity\n1,A\n1,B\n2,X\n3,A\n3,B\n4,Y\n").unwrap();
    let filtered = filter_variants_top_k(&log, 1);
    let ids: Vec<&str> = filtered.traces.iter().map(|t| t.case_id.as_str()).collect();
    assert_eq!(ids, vec!["1", "3"]);
}

#[test]
fn between_and_trim() {
    let log = parse_csv("case,activity\n1,X\n1,A\n1,B\n1,C\n1,Y\n2,C\n2,A\n3,A\n").unwrap();
    let between = filter_between(&log, "A", "C");
    assert_eq!(between.traces.len(), 1);
    let names: Vec<&str> = between.traces[0].events.iter().map(|e| e.name.as_str()).collect();
    assert_eq!(names, vec!["A", "B", "C"]);
    let trimmed = filter_trim(&log, "A", "C");
    assert_eq!(trimmed.traces.len(), 2);
    assert_eq!(trimmed.traces[1].events.len(), 2);
}

#[test]
fn prefixes_suffixes_and_follows() {
    let log = make_test_log();
    assert_eq!(filter_prefixes(&log, &["A".to_string(), "B".to_string()]).traces.len(), 2);
    assert_eq!(filter_prefixes(&log, &[]).traces.len(), 3);
    assert_eq!(filter_suffixes(&log, &["C".to_string()]).traces.len(), 2);
    assert_eq!(filter_directly_follows_relation(&log, "B", "C").traces.len(), 1);
    assert_eq!(filter_eventually_follows_relation(&log, "A", "C").traces.len(), 2);
    assert_eq!(filter_eventually_follows_relation(&log, "C", "A").traces.len(), 0);
}

#[test]
fn between_stops_at_first_second_activity() {
    let log = parse_csv("case,activity\n1,A\n1,B\n1,C\n1,B\n2,B\n2,A\n").unwrap();
    let between = filter_between(&log, "A", "B");
    assert_eq!(between.traces.len(), 1);
    assert_eq!(between.traces[0].case_id, "1");
    let names: Vec<&str> = between.traces[0].events.iter().map(|e| e.name.as_str()).collect();
    assert_eq!(names, vec!["A", "B"]);
}
