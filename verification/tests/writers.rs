use pm4wasm::event_log::{parse_csv, write_csv, write_xes};

#[test]
fn write_csv_without_timestamps() {
    let log = parse_csv("case_id,activity\n1,A\n1,B\n2,C\n").unwrap();
    assert_eq!(write_csv(&log), "case_id,activity\n1,A\n1,B\n2,C\n");
}

#[test]
fn write_csv_with_timestamps() {
    let log = parse_csv("case_id,activity,timestamp\n1,A,2020-01-01T00:00:00\n").unwrap();
    assert_eq!(write_csv(&log), "case_id,activity,timestamp\n1,A,2020-01-01T00:00:00\n");
}

#[test]
fn write_xes_escapes_and_nests() {
    let log = parse_csv("case_id,activity\nc<1>,A&B\n").unwrap();
    let xml = write_xes(&log);
    let expected = [
        "<?xml version=\"1.0\" encoding=\"UTF-8\"?>",
        "<log xes.version=\"1.0\" xes.features=\"nested-attributes\">",
        "  <trace>",
        "    <string key=\"concept:name\" value=\"c&lt;1&gt;\"/>",
        "    <event>",
        "      <string key=\"concept:name\" value=\"A&amp;B\"/>",
        "    </event>",
        "  </trace>",
        "</log>",
        "",
    ]
    .join("\n");
    assert_eq!(xml, expected);
}

#[test]
fn write_xes_writes_timestamp_as_date() {
    let log = parse_csv("case_id,activity,timestamp\n1,A,2020-01-01T00:00:00\n").unwrap();
    let xml = write_xes(&log);
    assert!(xml.contains("      <date key=\"time:timestamp\" value=\"2020-01-01T00:00:00\"/>\n"));
}
