use pm4wasm::conversion::process_tree_to_bpmn::process_tree_to_bpmn_xml;
use pm4wasm::process_tree::{ProcessTree, PtOperator};

fn has_tag(xml: &str, tag: &str) -> bool {
    xml.contains(tag)
}

fn leaf(a: &str) -> ProcessTree {
    ProcessTree::leaf(Some(a.to_string()))
}

#[test]
fn single_leaf_produces_valid_xml() {
    let tree = leaf("A");
    let xml = process_tree_to_bpmn_xml(&tree);
    assert!(has_tag(&xml, "<definitions"));
    assert!(has_tag(&xml, "<process"));
    assert!(has_tag(&xml, r#"name="A""#));
    assert!(has_tag(&xml, "<startEvent"));
    assert!(has_tag(&xml, "<endEvent"));
    assert!(has_tag(&xml, "</definitions>"));
}

#[test]
fn process_tree_to_bpmn_xor_produces_exclusive_gateways() {
    let tree = ProcessTree::internal(PtOperator::Xor, vec![leaf("A"), leaf("B")]);
    let xml = process_tree_to_bpmn_xml(&tree);
    assert!(has_tag(&xml, "exclusiveGateway"));
    assert!(has_tag(&xml, r#"name="A""#));
    assert!(has_tag(&xml, r#"name="B""#));
}

#[test]
fn parallel_produces_parallel_gateways() {
    let tree = ProcessTree::internal(PtOperator::Parallel, vec![leaf("A"), leaf("B")]);
    let xml = process_tree_to_bpmn_xml(&tree);
    assert!(has_tag(&xml, "parallelGateway"));
    assert!(has_tag(&xml, r#"name="A""#));
    assert!(has_tag(&xml, r#"name="B""#));
}

#[test]
fn process_tree_to_bpmn_loop_produces_exclusive_gateways() {
    let tree = ProcessTree::internal(PtOperator::Loop, vec![leaf("A"), leaf("B")]);
    let xml = process_tree_to_bpmn_xml(&tree);
    assert!(has_tag(&xml, "exclusiveGateway"));
    assert!(has_tag(&xml, r#"name="A""#));
    assert!(has_tag(&xml, r#"name="B""#));
}

#[test]
fn sequence_chains_activities() {
    let tree = ProcessTree::internal(PtOperator::Sequence, vec![leaf("A"), leaf("B"), leaf("C")]);
    let xml = process_tree_to_bpmn_xml(&tree);
    assert!(has_tag(&xml, r#"name="A""#));
    assert!(has_tag(&xml, r#"name="B""#));
    assert!(has_tag(&xml, r#"name="C""#));
    assert!(!has_tag(&xml, "Gateway"));
}

#[test]
fn tau_leaf_produces_silent_task() {
    let tree = ProcessTree::leaf(None);
    let xml = process_tree_to_bpmn_xml(&tree);
    assert!(has_tag(&xml, "pm4py:silent"));
}

#[test]
fn nested_operators() {
    let tree = ProcessTree::internal(
        PtOperator::Xor,
        vec![leaf("A"), ProcessTree::internal(PtOperator::Sequence, vec![leaf("B"), leaf("C")])],
    );
    let xml = process_tree_to_bpmn_xml(&tree);
    assert!(has_tag(&xml, "exclusiveGateway"));
    assert!(has_tag(&xml, r#"name="A""#));
    assert!(has_tag(&xml, r#"name="B""#));
    assert!(has_tag(&xml, r#"name="C""#));
}

#[test]
fn single_leaf_document_is_exact() {
    let xml = process_tree_to_bpmn_xml(&leaf("A&B"));
    let expected = [
        r#"<?xml version="1.0" encoding="UTF-8"?>"#,
        r#"<definitions"#,
        r#"  xmlns="http://www.omg.org/spec/BPMN/20100524/MODEL""#,
        r#"  xmlns:xsi="http://www.w3.org/2001/XMLSchema-instance""#,
        r#"  xmlns:pm4py="http://pm4py.org/bpmn-ext""#,
        r#"  targetNamespace="http://pm4py.org/powl""#,
        r#"  exporter="pm4py-pm4wasm""#,
        r#"  exporterVersion="0.1.0">"#,
        r#"  <process id="process_1" isExecutable="false">"#,
        r#"    <startEvent id="startEvent_1"/>"#,
        r#"    <endEvent id="endEvent_1"/>"#,
        r#"    <serviceTask id="p_1" name="" pm4py:connector="true"/>"#,
        r#"    <serviceTask id="p_2" name="" pm4py:connector="true"/>"#,
        r#"    <task id="task_3" name="A&amp;B"/>"#,
        r#"    <sequenceFlow id="flow_1" sourceRef="startEvent_1" targetRef="p_1"/>"#,
        r#"    <sequenceFlow id="flow_2" sourceRef="p_1" targetRef="task_3"/>"#,
        r#"    <sequenceFlow id="flow_3" sourceRef="task_3" targetRef="p_2"/>"#,
        r#"    <sequenceFlow id="flow_4" sourceRef="p_2" targetRef="endEvent_1"/>"#,
        r#"  </process>"#,
        r#"</definitions>"#,
    ]
    .join("\n");
    assert_eq!(xml, expected);
}

#[test]
fn loop_without_redo_has_no_back_flow() {
    let tree = ProcessTree::internal(PtOperator::Loop, vec![leaf("A")]);
    let xml = process_tree_to_bpmn_xml(&tree);
    assert!(has_tag(&xml, r#"<exclusiveGateway id="loop_check_3" gatewayDirection="Converging"/>"#));
    assert!(has_tag(&xml, r#"<exclusiveGateway id="loop_decide_4" gatewayDirection="Diverging"/>"#));
    assert_eq!(xml.matches(r#"targetRef="loop_check_3""#).count(), 1);
    assert!(has_tag(&xml, r#"sourceRef="p_1" targetRef="loop_check_3""#));
}

#[test]
fn empty_sequence_is_a_silent_task() {
    let tree = ProcessTree::internal(PtOperator::Sequence, vec![]);
    let xml = process_tree_to_bpmn_xml(&tree);
    assert!(has_tag(&xml, r#"<serviceTask id="tau_3" name="" pm4py:silent="true"/>"#));
}
