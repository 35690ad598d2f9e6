use pm4wasm::conversion::pnml::from_pnml;
use pm4wasm::conversion::ptml::from_ptml;
use pm4wasm::process_tree::PtOperator;
use pm4wasm::xes::parse_xes;
use pm4wasm::xml::{attributes_as_written, attributes_unescaped, read_xml_events, xml_attributes, xml_unescape, XmlEvent};

#[test]
fn xml_events_of_a_small_document() {
    let events = read_xml_events("<?xml version=\"1.0\"?><a x=\"1\">  hi &amp; bye  <b/></a>").unwrap();
    assert_eq!(events.len(), 5);
    assert!(matches!(&events[0], XmlEvent::Other));
    match &events[1] {
        XmlEvent::Start(n, raw) => {
            assert_eq!(n, "a");
            assert_eq!(raw, " x=\"1\"");
        }
        other => panic!("unexpected {:?}", other),
    }
    match &events[2] {
        XmlEvent::Text(t) => assert_eq!(t, "hi &amp; bye"),
        other => panic!("unexpected {:?}", other),
    }
    match &events[3] {
        XmlEvent::Empty(n, raw) => {
            assert_eq!(n, "b");
            assert_eq!(raw, "");
        }
        other => panic!("unexpected {:?}", other),
    }
    match &events[4] {
        XmlEvent::End(n) => assert_eq!(n, "a"),
        other => panic!("unexpected {:?}", other),
    }
}

#[test]
fn xml_events_report_mismatched_tags() {
    assert!(read_xml_events("<a></b>").is_err());
}

#[test]
fn xml_attributes_in_order_with_malformed_ones() {
    let attrs = xml_attributes(" id=\"p1\" name='a&amp;b'");
    assert_eq!(attrs, vec![Some(("id".to_string(), "p1".to_string())), Some(("name".to_string(), "a&amp;b".to_string()))]);
    let dup = xml_attributes(" k=\"1\" k=\"2\"");
    assert_eq!(dup.len(), 2);
    assert!(dup[0].is_some());
    assert!(dup[1].is_none());
    assert_eq!(attributes_as_written(" k=\"1\" k=\"2\""), vec![("k".to_string(), "1".to_string())]);
}

#[test]
fn xml_unescape_replaces_escapes() {
    assert_eq!(xml_unescape("a &lt; b &amp;&#65;"), Some("a < b &A".to_string()));
    assert_eq!(xml_unescape("plain"), Some("plain".to_string()));
    assert_eq!(xml_unescape("bad &nope; escape"), None);
    assert_eq!(attributes_unescaped(" key=\"x\" value=\"a&amp;b\""), Some(vec![("key".to_string(), "x".to_string()), ("value".to_string(), "a&b".to_string())]));
    assert_eq!(attributes_unescaped(" value=\"&bogus;\""), None);
}

#[test]
fn xes_values_are_unescaped() {
    let xml = r#"<log><trace><string key="concept:name" value="c&amp;1"/><event><string key="concept:name" value="A&lt;B"/></event></trace></log>"#;
    let log = parse_xes(xml).unwrap();
    assert_eq!(log.traces[0].case_id, "c&1");
    assert_eq!(log.traces[0].events[0].name, "A<B");
}

#[test]
fn xes_malformed_value_attribute_is_an_error() {
    let xml = r#"<log><trace><event><string key="concept:name" value="&bogus;"/></event></trace></log>"#;
    assert!(parse_xes(xml).is_err());
    let dup = r#"<log><trace><event><string key="a" key="b" value="x"/></event></trace></log>"#;
    assert!(parse_xes(dup).is_err());
    let other = r#"<log><trace><event><meta k="1" k="2"/><string key="concept:name" value="A"/></event></trace></log>"#;
    assert_eq!(parse_xes(other).unwrap().traces[0].events[0].name, "A");
}

#[test]
fn xes_reader_error_is_an_error() {
    assert!(parse_xes("<log><trace></log>").is_err());
}

#[test]
fn pnml_attribute_values_stay_as_written_and_texts_are_unescaped() {
    let xml = r#"<pnml><net id="n&amp;1"><place id="p1"><graphics/></place><transition id="t1" name="A&amp;B"><graphics/></transition><initialmarking><place idref="p1"><text>&#50;</text></place></initialmarking></net></pnml>"#;
    let r = from_pnml(xml).unwrap();
    assert_eq!(r.net.name, "n&amp;1");
    assert_eq!(r.net.transitions[0].label.as_deref(), Some("A&amp;B"));
    assert_eq!(r.initial_marking.get("p1"), Some(2));
    assert!(from_pnml(r#"<pnml><net id="n"><transition id="t"><name><text>&bogus;</text></name></transition></net></pnml>"#).is_err());
    assert!(from_pnml("<pnml><net></pnml>").is_err());
}

#[test]
fn ptml_skips_malformed_attributes() {
    let xml = r#"<ptml><sequence><activity id="1" id="2" label="A"/><activity label="B"/></sequence></ptml>"#;
    let t = from_ptml(xml).unwrap();
    assert_eq!(t.operator, Some(PtOperator::Sequence));
    assert_eq!(t.children[0].label.as_deref(), Some("A"));
    assert_eq!(t.children[1].label.as_deref(), Some("B"));
    assert!(from_ptml("<ptml><sequence></ptml>").is_err());
}

#[test]
fn pnml_reading_gives_unit_arcs() {
    let xml = r#"<pnml><net id="n"><place id="p"><graphics/></place><transition id="t"><graphics/></transition><arc source="p" target="t"><inscription><text>3</text></inscription></arc></net></pnml>"#;
    let r = from_pnml(xml).unwrap();
    assert_eq!(r.net.arcs.len(), 1);
    assert_eq!(r.net.arcs[0].weight, 1);
}
