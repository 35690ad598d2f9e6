use pm4wasm::xes::parse_xes;

#[test]
fn parse_simple_xes() {
    let xml = r#"<?xml version="1.0" encoding="UTF-8"?>
<log xes.version="1.0">
  <trace>
    <string key="concept:name" value="case1"/>
    <event>
      <string key="concept:name" value="A"/>
      <date key="time:timestamp" value="2020-01-01T00:00:00"/>
    </event>
    <event>
      <string key="concept:name" value="B"/>
    </event>
  </trace>
  <trace>
    <string key="concept:name" value="case2"/>
    <event>
      <string key="concept:name" value="A"/>
    </event>
    <event>
      <string key="concept:name" value="C"/>
    </event>
  </trace>
</log>"#;
    let log = parse_xes(xml).unwrap();
    assert_eq!(log.traces.len(), 2);
    assert_eq!(log.traces[0].case_id, "case1");
    assert_eq!(log.traces[0].events.len(), 2);
    assert_eq!(log.traces[0].events[0].name, "A");
    assert_eq!(log.traces[0].events[0].timestamp.as_deref(), Some("2020-01-01T00:00:00"));
    assert_eq!(log.traces[1].events[1].name, "C");
}
