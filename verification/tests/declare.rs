use pm4wasm::discovery::declare::{
    absence_rules, best_support, coexistence_rules, column_rule, form_rules_table, group_rules, succession_rules,
    DeclareRule, DeclareTemplate,
};
use pm4wasm::event_log::parse_csv;

fn value(row: &[(String, i32)], key: &str) -> Option<i32> {
    row.iter().find(|(k, _)| k == key).map(|(_, v)| *v)
}

fn acts(names: &[&str]) -> Vec<String> {
    names.iter().map(|s| s.to_string()).collect()
}

#[test]
fn template_names() {
    assert_eq!(DeclareTemplate::Existence.as_str(), "existence");
    assert_eq!(DeclareTemplate::ExactlyOne.as_str(), "exactly_one");
    assert_eq!(DeclareTemplate::AltPrecedence.as_str(), "altprecedence");
    assert_eq!(DeclareTemplate::NonChainSuccession.as_str(), "nonchainsuccession");
}

#[test]
fn rules_table_has_one_row_per_trace_with_expected_values() {
    let log = parse_csv("case_id,activity\n1,A\n1,B\n2,A\n2,C\n").unwrap();
    let allowed = vec![
        DeclareTemplate::Existence,
        DeclareTemplate::ExactlyOne,
        DeclareTemplate::Init,
        DeclareTemplate::RespondedExistence,
        DeclareTemplate::Response,
        DeclareTemplate::Precedence,
    ];
    let table = form_rules_table(&log, &acts(&["A", "B", "C"]), &allowed);
    assert_eq!(table.len(), 2);
    let first = &table[0];
    assert_eq!(value(first, "existence|A"), Some(1));
    assert_eq!(value(first, "existence|C"), Some(-1));
    assert_eq!(value(first, "exactly_one|B"), Some(1));
    assert_eq!(value(first, "init|A"), Some(1));
    assert_eq!(value(first, "init|B"), Some(-1));
    assert_eq!(value(first, "responded_existence|A|B"), Some(1));
    assert_eq!(value(first, "responded_existence|A|C"), Some(-1));
    assert_eq!(value(first, "response|A|B"), Some(1));
    assert_eq!(value(first, "response|A|C"), Some(0));
    assert_eq!(value(first, "response|B|A"), Some(-1));
    assert_eq!(value(first, "precedence|A|B"), Some(1));
    assert_eq!(value(first, "precedence|C|B"), Some(-1));
    assert_eq!(value(&table[1], "response|A|C"), Some(1));
    assert_eq!(value(&table[1], "response|A|B"), Some(0));
}

#[test]
fn rules_table_keeps_template_order_and_skips_disallowed_templates() {
    let log = parse_csv("case_id,activity\n1,A\n1,B\n").unwrap();
    let allowed = vec![DeclareTemplate::Response, DeclareTemplate::Existence, DeclareTemplate::Succession];
    let table = form_rules_table(&log, &acts(&["A", "B"]), &allowed);
    let keys: Vec<&str> = table[0].iter().map(|(k, _)| k.as_str()).collect();
    assert_eq!(keys, vec!["existence|A", "existence|B", "response|A|B", "response|B|A"]);
}

#[test]
fn alternate_and_chain_templates() {
    let log = parse_csv("case_id,activity\n1,A\n1,B\n1,A\n1,C\n1,B\n").unwrap();
    let allowed = vec![
        DeclareTemplate::AltResponse,
        DeclareTemplate::ChainResponse,
        DeclareTemplate::AltPrecedence,
        DeclareTemplate::ChainPrecedence,
    ];
    let table = form_rules_table(&log, &acts(&["A", "B", "C"]), &allowed);
    let row = &table[0];
    // Every A is followed by a B before the next A.
    assert_eq!(value(row, "altresponse|A|B"), Some(1));
    // The second A is followed by C, not B.
    assert_eq!(value(row, "chainresponse|A|B"), Some(-1));
    assert_eq!(value(row, "chainresponse|C|B"), Some(1));
    // Every B has an A since the previous B.
    assert_eq!(value(row, "altprecedence|A|B"), Some(1));
    // The first B is directly preceded by A, the second by C.
    assert_eq!(value(row, "chainprecedence|A|B"), Some(-1));
    assert_eq!(value(row, "chainprecedence|A|C"), Some(1));
}

#[test]
fn empty_trace_has_no_init_rules() {
    let log = parse_csv("case_id,activity\n1,A\n").unwrap();
    let mut log = log;
    let mut empty = log.traces[0].clone();
    empty.events.clear();
    log.traces.push(empty);
    let table = form_rules_table(&log, &acts(&["A"]), &vec![DeclareTemplate::Init, DeclareTemplate::Existence]);
    assert_eq!(value(&table[0], "init|A"), Some(1));
    assert_eq!(value(&table[1], "init|A"), None);
    assert_eq!(value(&table[1], "existence|A"), Some(-1));
}

#[test]
fn column_counts_gives_support_and_confidence() {
    let table: Vec<Vec<(String, i32)>> = vec![
        vec![("existence|A".to_string(), 1), ("response|A|B".to_string(), -1)],
        vec![("existence|A".to_string(), 0), ("response|A|B".to_string(), 1)],
        vec![("init|C".to_string(), 1)],
    ];
    let counts = pm4wasm::discovery::declare::column_counts(&table);
    assert_eq!(
        counts,
        vec![
            ("existence|A".to_string(), 1, 1),
            ("response|A|B".to_string(), 2, 1),
            ("init|C".to_string(), 1, 1),
        ]
    );
}

#[test]
fn derived_declare_rules() {
    let r = |s: usize, c: usize| DeclareRule { support: s, confidence: c };
    let response = vec![("A|B".to_string(), r(4, 3)), ("A|C".to_string(), r(2, 2))];
    let precedence = vec![("A|B".to_string(), r(3, 3))];
    assert_eq!(succession_rules(&response, &precedence), vec![("A|B".to_string(), r(3, 3))]);
    let re = vec![("A|B".to_string(), r(4, 2)), ("B|A".to_string(), r(3, 3)), ("A|C".to_string(), r(1, 1))];
    assert_eq!(
        coexistence_rules(&re),
        vec![("A|B".to_string(), r(3, 2)), ("B|A".to_string(), r(3, 2))]
    );
    let existence = vec![("A".to_string(), r(5, 2))];
    assert_eq!(absence_rules(&existence), vec![("A".to_string(), r(5, 3))]);
}

#[test]
fn column_keys_split_into_template_and_rule() {
    assert_eq!(column_rule("existence|A"), ("existence".to_string(), "A".to_string()));
    assert_eq!(column_rule("response|A|B"), ("response".to_string(), "A|B".to_string()));
}

#[test]
fn rules_group_by_template_in_first_appearance_order() {
    let r = |s: usize, c: usize| DeclareRule { support: s, confidence: c };
    let rules = vec![
        ("response".to_string(), "A|B".to_string(), r(2, 1)),
        ("existence".to_string(), "A".to_string(), r(3, 3)),
        ("response".to_string(), "B|C".to_string(), r(1, 1)),
    ];
    let groups = group_rules(&rules);
    assert_eq!(groups.len(), 2);
    assert_eq!(groups[0].0, "response");
    assert_eq!(groups[0].1, vec![("A|B".to_string(), r(2, 1)), ("B|C".to_string(), r(1, 1))]);
    assert_eq!(groups[1].0, "existence");
    assert_eq!(groups[1].1, vec![("A".to_string(), r(3, 3))]);
}

#[test]
fn best_support_takes_longest_row_with_a_satisfied_rule() {
    let row = |vals: &[i32]| -> Vec<(String, i32)> { vals.iter().enumerate().map(|(i, v)| (format!("k{}", i), *v)).collect() };
    let table = vec![row(&[1, -1]), row(&[-1, -1, -1, 0]), row(&[0, 1, 1])];
    assert_eq!(best_support(&table), 3);
    assert_eq!(best_support(&vec![row(&[-1, 0])]), 0);
}
