use pm4wasm::binary_relation::BinaryRelation;
use pm4wasm::diff::{diff, AlwaysChange, ModelDiff, OrderChange, Severity, StructureChange};
use pm4wasm::footprints::{
    footprints_of_loop, footprints_of_partial_order, footprints_of_transition, footprints_of_xor, Footprints,
};

fn act(a: &str) -> Footprints {
    footprints_of_transition(Some(a))
}

fn xor_ab() -> Footprints {
    footprints_of_xor(&vec![act("A"), act("B")])
}

fn po_ab(ordered: bool) -> Footprints {
    let mut order = BinaryRelation::new(2);
    if ordered {
        order.add_edge(0, 1);
    }
    footprints_of_partial_order(&vec![act("A"), act("B")], &order)
}

fn root_change(from: &str, to: &str) -> StructureChange {
    StructureChange { location: "root".to_string(), from: from.to_string(), to: to.to_string() }
}

fn has(v: &[String], x: &str) -> bool {
    v.iter().any(|s| s == x)
}

#[test]
fn diff_of_identical_models_is_empty() {
    let d = diff(&xor_ab(), &xor_ab(), vec![]);
    assert!(d.behaviourally_equivalent);
    assert!(d.is_empty());
    assert_eq!(d.severity, Severity::NoChange);
}

#[test]
fn diff_detects_added_activity() {
    let d = diff(&act("A"), &xor_ab(), vec![]);
    assert!(has(&d.added_activities, "B"));
    assert!(d.removed_activities.is_empty());
    // A was mandatory alone and is optional in X(A, B).
    assert!(d.always_changes.iter().any(|c| matches!(c, AlwaysChange::BecameOptional(a) if a == "A")));
    assert!(d.severity >= Severity::Moderate);
    assert_eq!(d.severity, Severity::Breaking);
    assert!(!d.behaviourally_equivalent);
    assert_eq!(d.min_trace_length_delta, 0);
}

#[test]
fn diff_removed_activity_is_breaking() {
    let d = diff(&xor_ab(), &act("A"), vec![]);
    assert!(has(&d.removed_activities, "B"));
    assert!(d.always_changes.iter().any(|c| matches!(c, AlwaysChange::BecameMandatory(a) if a == "A")));
    assert_eq!(d.severity, Severity::Breaking);
    assert_eq!(d.min_trace_length_delta, 0);
}

#[test]
fn diff_root_structure_change_is_breaking() {
    let a = xor_ab();
    let b = footprints_of_loop(&act("A"), &act("B"));
    let d = diff(&a, &b, vec![root_change("xor", "loop")]);
    assert!(d.structure_changes.iter().any(|c| c.location == "root"));
    assert_eq!(d.severity, Severity::Breaking);
}

#[test]
fn diff_deeper_structure_change_alone_is_minor() {
    let change = StructureChange {
        location: "root.child[0]".to_string(),
        from: "Transition".to_string(),
        to: "tau".to_string(),
    };
    let d = diff(&xor_ab(), &xor_ab(), vec![change]);
    assert_eq!(d.severity, Severity::Minor);
    assert!(d.behaviourally_equivalent);
    assert!(!d.is_empty());
}

#[test]
fn diff_detects_ordering_change() {
    let d = diff(&po_ab(true), &po_ab(false), vec![]);
    assert!(!d.order_changes.is_empty());
    assert!(d
        .order_changes
        .iter()
        .any(|c| matches!(c, OrderChange::SequenceRemoved((x, y)) if x == "A" && y == "B")));
    assert!(d
        .order_changes
        .iter()
        .any(|c| matches!(c, OrderChange::ParallelAdded((x, y)) if x == "A" && y == "B")));
    assert!(d.order_changes.iter().any(|c| matches!(c, OrderChange::StartAdded(x) if x == "B")));
    assert!(d.order_changes.iter().any(|c| matches!(c, OrderChange::EndAdded(x) if x == "A")));
    assert_eq!(d.severity, Severity::Moderate);
    assert!(!d.behaviourally_equivalent);
}

#[test]
fn model_diff_is_empty_checks_every_list() {
    let d = ModelDiff {
        added_activities: vec![],
        removed_activities: vec![],
        always_changes: vec![],
        order_changes: vec![],
        structure_changes: vec![],
        min_trace_length_delta: 2,
        severity: Severity::Moderate,
        behaviourally_equivalent: false,
    };
    assert!(!d.is_empty());
}
