use pm4wasm::discovery::log_skeleton::{activ_freq_single, after, before, combos, directly_follows, equivalence};

fn trace(names: &[&str]) -> Vec<String> {
    names.iter().map(|s| s.to_string()).collect()
}

fn pairs(ps: &[(&str, &str)]) -> Vec<(String, String)> {
    ps.iter().map(|(a, b)| (a.to_string(), b.to_string())).collect()
}

#[test]
fn after_pairs_each_activity_with_later_ones() {
    assert_eq!(after(&trace(&["A", "B", "C"])), pairs(&[("A", "B"), ("A", "C"), ("B", "C")]));
}

#[test]
fn before_pairs_each_activity_with_earlier_ones() {
    assert_eq!(before(&trace(&["A", "B", "C"])), pairs(&[("B", "A"), ("C", "A"), ("C", "B")]));
}

#[test]
fn directly_follows_pairs_neighbours() {
    assert_eq!(directly_follows(&trace(&["A", "B", "A"])), pairs(&[("A", "B"), ("B", "A")]));
    assert!(directly_follows(&trace(&[])).is_empty());
}

#[test]
fn equivalence_pairs_equally_frequent_activities() {
    assert_eq!(
        equivalence(&trace(&["A", "B", "B", "C"])),
        pairs(&[("A", "C"), ("B", "B"), ("B", "B"), ("C", "A")])
    );
}

#[test]
fn combos_are_distinct() {
    assert_eq!(combos(&trace(&["A", "A", "B"])), pairs(&[("A", "A"), ("A", "B"), ("B", "A")]));
}

#[test]
fn activity_frequencies() {
    let f = activ_freq_single(&trace(&["B", "A", "B"]));
    assert_eq!(f, vec![("B".to_string(), 2), ("A".to_string(), 1)]);
}

#[test]
fn weighted_pair_counts_sum_per_pair_in_first_order() {
    let p = |a: &str, b: &str| (a.to_string(), b.to_string());
    let entries = vec![(p("A", "B"), 2), (p("B", "C"), 1), (p("A", "B"), 3), (p("C", "A"), 0)];
    let table = pm4wasm::discovery::log_skeleton::weighted_pair_counts(&entries);
    assert_eq!(table, vec![(p("A", "B"), 5), (p("B", "C"), 1), (p("C", "A"), 0)]);
    assert!(pm4wasm::discovery::log_skeleton::weighted_pair_counts(&vec![]).is_empty());
}
