use pm4wasm::conversion::pnml::{from_pnml, parse_u32, pnml_from_tokens, to_pnml, PnmlToken};
use pm4wasm::petri_net::{Arc, Marking, PetriNet, PetriNetResult, Place, Transition};

fn attr(k: &str, v: &str) -> (String, String) {
    (k.to_string(), v.to_string())
}

#[test]
fn test_from_pnml_simple() {
    let pnml = r#"<?xml version="1.0" encoding="UTF-8"?>
<pnml xmlns="http://www.pnml.org/version-2009/grammar">
  <net id="Simple" type="P/T-net">
    <place id="source">
      <graphics/>
    </place>
    <place id="sink">
      <graphics/>
    </place>
    <transition id="t1" name="A">
      <graphics/>
    </transition>
    <transition id="t2">
      <graphics/>
    </transition>
    <arc source="source" target="t1">
      <inscription><text>1</text></inscription>
      <graphics/>
    </arc>
    <arc source="t1" target="sink">
      <inscription><text>1</text></inscription>
      <graphics/>
    </arc>
    <initialmarking>
      <place idref="source"><text>1</text></place>
    </initialmarking>
    <finalmarking>
      <place idref="sink"><text>1</text></place>
    </finalmarking>
  </net>
</pnml>"#;

    let result = from_pnml(pnml).unwrap();
    assert_eq!(result.net.name, "Simple");
    assert_eq!(result.net.places.len(), 2);
    assert_eq!(result.net.transitions.len(), 2);
    assert_eq!(result.net.transitions[0].label, Some("A".to_string()));
    assert_eq!(result.net.transitions[1].label, None); // silent transition
    assert_eq!(result.net.arcs.len(), 2);
    assert_eq!(result.initial_marking.get("source"), Some(1));
    assert_eq!(result.final_marking.get("sink"), Some(1));
}

#[test]
fn parse_u32_reads_decimal_numbers() {
    assert_eq!(parse_u32("42"), Some(42));
    assert_eq!(parse_u32("+5"), Some(5));
    assert_eq!(parse_u32("007"), Some(7));
    assert_eq!(parse_u32("4294967295"), Some(4294967295));
    assert_eq!(parse_u32("4294967296"), None);
    assert_eq!(parse_u32(""), None);
    assert_eq!(parse_u32("+"), None);
    assert_eq!(parse_u32("-1"), None);
    assert_eq!(parse_u32("1a"), None);
    assert_eq!(parse_u32(" 1"), None);
}

#[test]
fn pnml_tokens_build_net_and_markings() {
    let tokens = vec![
        PnmlToken::Start("net".to_string(), vec![attr("id", "N"), attr("type", "P/T-net")]),
        PnmlToken::Start("place".to_string(), vec![attr("id", "p1")]),
        PnmlToken::End("place".to_string()),
        PnmlToken::Start("place".to_string(), vec![attr("id", "p2")]),
        PnmlToken::End("place".to_string()),
        PnmlToken::Start("transition".to_string(), vec![attr("id", "t"), attr("name", "A")]),
        PnmlToken::End("transition".to_string()),
        PnmlToken::Empty("arc".to_string(), vec![attr("source", "p1"), attr("target", "t")]),
        PnmlToken::Start("arc".to_string(), vec![attr("source", "t"), attr("target", "p2")]),
        PnmlToken::Start("text".to_string(), vec![]),
        PnmlToken::Text("1".to_string()),
        PnmlToken::End("text".to_string()),
        PnmlToken::End("arc".to_string()),
        PnmlToken::Start("initialmarking".to_string(), vec![]),
        PnmlToken::Start("place".to_string(), vec![attr("idref", "p1")]),
        PnmlToken::Text(" 3 ".to_string()),
        PnmlToken::End("place".to_string()),
        PnmlToken::Empty("place".to_string(), vec![attr("idref", "p2")]),
        PnmlToken::End("initialmarking".to_string()),
        PnmlToken::Start("finalmarking".to_string(), vec![]),
        PnmlToken::Start("place".to_string(), vec![attr("idref", "p2")]),
        PnmlToken::Text("0".to_string()),
        PnmlToken::End("place".to_string()),
        PnmlToken::End("finalmarking".to_string()),
        PnmlToken::End("net".to_string()),
    ];
    let r = pnml_from_tokens(&tokens);
    assert_eq!(r.net.name, "N");
    let places: Vec<&str> = r.net.places.iter().map(|p| p.name.as_str()).collect();
    assert_eq!(places, vec!["p1", "p2"]);
    assert_eq!(r.net.transitions.len(), 1);
    assert_eq!(r.net.transitions[0].name, "t");
    assert_eq!(r.net.transitions[0].label, Some("A".to_string()));
    let arcs: Vec<(&str, &str)> = r.net.arcs.iter().map(|a| (a.source.as_str(), a.target.as_str())).collect();
    assert_eq!(arcs, vec![("p1", "t"), ("t", "p2")]);
    assert_eq!(r.initial_marking.get("p1"), Some(3));
    assert_eq!(r.initial_marking.get("p2"), None);
    // Zero tokens are not recorded.
    assert_eq!(r.final_marking.get("p2"), None);
}

#[test]
fn pnml_transition_without_id_is_dropped() {
    let tokens = vec![
        PnmlToken::Start("transition".to_string(), vec![attr("name", "A")]),
        PnmlToken::End("transition".to_string()),
        PnmlToken::Start("arc".to_string(), vec![attr("source", "x")]),
        PnmlToken::End("arc".to_string()),
        PnmlToken::Empty("arc".to_string(), vec![attr("target", "y")]),
    ];
    let r = pnml_from_tokens(&tokens);
    assert_eq!(r.net.name, "");
    assert!(r.net.transitions.is_empty());
    assert_eq!(r.net.arcs.len(), 1);
    assert_eq!(r.net.arcs[0].source, "");
    assert_eq!(r.net.arcs[0].target, "y");
}

fn two_place_net(name: &str) -> PetriNetResult {
    PetriNetResult {
        net: PetriNet {
            name: name.to_string(),
            places: vec![Place { name: "p1".to_string() }, Place { name: "p2".to_string() }],
            transitions: vec![Transition { name: "t1".to_string(), label: Some("A".to_string()) }],
            arcs: vec![
                Arc { source: "p1".to_string(), target: "t1".to_string(), weight: 1 },
                Arc { source: "t1".to_string(), target: "p2".to_string(), weight: 1 },
            ],
        },
        initial_marking: Marking { tokens: vec![("p1".to_string(), 1)] },
        final_marking: Marking { tokens: vec![("p2".to_string(), 1)] },
    }
}

#[test]
fn test_to_pnml_simple() {
    let pn = two_place_net("Test Net");
    let pnml = to_pnml(&pn);
    assert!(pnml.contains("<?xml"));
    assert!(pnml.contains("<net id=\"Test Net\""));
    assert!(pnml.contains("<place id=\"p1\">"));
    assert!(pnml.contains("<transition id=\"t1\""));
    assert!(pnml.contains("name=\"A\""));
    assert!(pnml.contains("<inscription>"));
}

#[test]
fn test_pnml_roundtrip() {
    let original = two_place_net("RoundTrip");
    let pnml = to_pnml(&original);
    let restored = from_pnml(&pnml).unwrap();

    assert_eq!(restored.net.name, original.net.name);
    assert_eq!(restored.net.places.len(), original.net.places.len());
    assert_eq!(restored.net.transitions.len(), original.net.transitions.len());
    assert_eq!(restored.net.arcs.len(), original.net.arcs.len());
    assert_eq!(restored.initial_marking.tokens, original.initial_marking.tokens);
    assert_eq!(restored.final_marking.tokens, original.final_marking.tokens);
}

#[test]
fn to_pnml_writes_the_whole_document() {
    let mut pn = two_place_net("N");
    pn.net.transitions.push(Transition { name: "tau".to_string(), label: None });
    pn.initial_marking.tokens.push(("p2".to_string(), 0));
    pn.final_marking.tokens[0].1 = 12;
    let lines = [
        "<?xml version=\"1.0\" encoding=\"UTF-8\"?>",
        "<pnml xmlns=\"http://www.pnml.org/version-2009/grammar\">",
        "  <net id=\"N\" type=\"P/T-net\">",
        "    <place id=\"p1\">",
        "      <graphics/>",
        "    </place>",
        "    <place id=\"p2\">",
        "      <graphics/>",
        "    </place>",
        "    <transition id=\"t1\" name=\"A\">",
        "      <graphics/>",
        "    </transition>",
        "    <transition id=\"tau\">",
        "      <graphics/>",
        "    </transition>",
        "    <arc source=\"p1\" target=\"t1\">",
        "      <inscription>",
        "        <text>1</text>",
        "      </inscription>",
        "      <graphics/>",
        "    </arc>",
        "    <arc source=\"t1\" target=\"p2\">",
        "      <inscription>",
        "        <text>1</text>",
        "      </inscription>",
        "      <graphics/>",
        "    </arc>",
        "    <initialmarking>",
        "      <place idref=\"p1\">",
        "        <text>1</text>",
        "      </place>",
        "    </initialmarking>",
        "    <finalmarking>",
        "      <place idref=\"p2\">",
        "        <text>12</text>",
        "      </place>",
        "    </finalmarking>",
        "  </net>",
        "</pnml>",
    ];
    let expected: String = lines.iter().map(|l| format!("{}\n", l)).collect();
    assert_eq!(to_pnml(&pn), expected);
}

#[test]
fn to_pnml_writes_arc_weights() {
    let mut pn = two_place_net("weighted");
    pn.net.arcs[0].weight = 3;
    let xml = to_pnml(&pn);
    assert!(xml.contains("<text>3</text>"));
    assert!(xml.contains("<text>1</text>"));
}
