use process_mining::case_stats::{calculate_min_cost, CaseStats, EdgeType};

fn stats(events: &[(&str, usize)], objects: &[(&str, usize)], edges: &[(EdgeType, usize)]) -> CaseStats {
    CaseStats {
        query_event_counts: events.iter().map(|(k, n)| (k.to_string(), *n)).collect(),
        query_object_counts: objects.iter().map(|(k, n)| (k.to_string(), *n)).collect(),
        query_edge_counts: edges.to_vec(),
    }
}

#[test]
fn cost_counts_what_the_partial_case_has_beyond_the_query() {
    let query = stats(&[("A", 1)], &[("order", 2)], &[(EdgeType::DF, 1)]);
    let partial = stats(&[("A", 2), ("B", 1)], &[("order", 1)], &[(EdgeType::DF, 3), (EdgeType::E2O, 1)]);
    // A: 1 too many, B: 1 not in the query, order: fewer than the query, DF: 2, E2O: 1.
    assert_eq!(calculate_min_cost(&query, &partial), 5);
}

#[test]
fn case_against_itself_costs_nothing() {
    let s = stats(&[("A", 3), ("B", 1)], &[("order", 2), ("item", 4)], &[(EdgeType::DF, 2), (EdgeType::O2O, 5)]);
    assert_eq!(calculate_min_cost(&s, &s), 0);
}

#[test]
fn empty_partial_case_costs_nothing() {
    let query = stats(&[("A", 3)], &[("order", 2)], &[(EdgeType::DF, 2)]);
    let partial = stats(&[], &[], &[]);
    assert_eq!(calculate_min_cost(&query, &partial), 0);
}

#[test]
fn everything_counts_against_an_empty_query() {
    let query = stats(&[], &[], &[]);
    let partial = stats(&[("A", 2)], &[("order", 3)], &[(EdgeType::E2O, 4)]);
    assert_eq!(calculate_min_cost(&query, &partial), 9);
}

#[test]
fn large_counts_do_not_overflow() {
    let query = stats(&[], &[], &[]);
    let partial = stats(&[("A", usize::MAX), ("B", usize::MAX)], &[("order", usize::MAX)], &[]);
    assert_eq!(calculate_min_cost(&query, &partial), 3 * (usize::MAX as u128));
}
