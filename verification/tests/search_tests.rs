use process_mining::marking::{Binding, OCToken};
use process_mining::search::SearchNodeAction;

#[test]
fn only_a_firing_ends_the_pre_firing_phase() {
    assert!(SearchNodeAction::VOID.is_pre_firing());
    assert!(SearchNodeAction::add_token(7).is_pre_firing());
    let binding = Binding { transition_id: 3, object_binding_info: Vec::new() };
    assert!(!SearchNodeAction::fire_transition(3, binding).is_pre_firing());
}

#[test]
fn constructors_keep_their_arguments() {
    match SearchNodeAction::add_token(42) {
        SearchNodeAction::AddToken(p) => assert_eq!(p, 42),
        _ => panic!("expected a token step"),
    }
    let mut counter = 5;
    let token = OCToken::new(&mut counter);
    assert_eq!(token.id, 5);
    assert_eq!(counter, 6);
    let binding = Binding { transition_id: 9, object_binding_info: Vec::new() };
    match SearchNodeAction::fire_transition(9, binding) {
        SearchNodeAction::FireTransition(t, b) => {
            assert_eq!(t, 9);
            assert_eq!(b.transition_id, 9);
        }
        _ => panic!("expected a firing step"),
    }
}

use process_mining::case_graph::{CaseGraph, Node};
use process_mining::case_stats::{calculate_min_cost, CaseStats, EdgeType};
use process_mining::marking::Marking;
use process_mining::petri_net::ObjectCentricPetriNet;
use process_mining::search::{generate_children, SearchNode};

fn no_counts() -> CaseStats {
    CaseStats { query_event_counts: Vec::new(), query_object_counts: Vec::new(), query_edge_counts: Vec::new() }
}

fn count_in(entries: &[(String, usize)], key: &str) -> usize {
    entries.iter().filter(|(k, _)| k == key).map(|(_, n)| *n).sum()
}

fn edge_count_in(entries: &[(EdgeType, usize)], key: EdgeType) -> usize {
    entries.iter().filter(|(k, _)| *k == key).map(|(_, n)| *n).sum()
}

/// Start -> T1 -> End, one object type.
fn small_net() -> (ObjectCentricPetriNet, u128, u128) {
    let mut net = ObjectCentricPetriNet::new();
    let start = net.add_place(Some("Start".to_string()), "order".to_string(), true, false);
    let end = net.add_place(Some("End".to_string()), "order".to_string(), false, true);
    let t1 = net.add_transition("T1".to_string(), None, false);
    assert!(net.add_input_arc(start.id, t1.id, false, 1));
    assert!(net.add_output_arc(t1.id, end.id, false, 1));
    (net, start.id, t1.id)
}

fn root(net: &ObjectCentricPetriNet) -> SearchNode {
    SearchNode::new_with_stats(Marking::new(net.clone()), CaseGraph::new(), 0, None, SearchNodeAction::VOID, no_counts())
}

#[test]
fn root_of_an_empty_marking_only_adds_tokens() {
    let (net, start, _) = small_net();
    let node = root(&net);
    let query = no_counts();
    let children = generate_children(&net, &node, &query, &Vec::new(), false);
    assert_eq!(children.len(), 1);
    let c = &children[0];
    assert!(matches!(c.action, SearchNodeAction::AddToken(p) if p == start));
    assert_eq!(c.partial_case.nodes.len(), 1);
    assert!(matches!(&c.partial_case.nodes[0], Node::ObjectNode(o) if o.id == 0 && o.object_type == "order"));
    assert!(c.partial_case.edges.is_empty());
    assert_eq!(count_in(&c.partial_case_stats.query_object_counts, "order"), 1);
    assert_eq!(c.most_recent_event_id, None);
    // One object more than an empty query asks for.
    assert_eq!(c.min_cost, 1);
    assert_eq!(c.min_cost, calculate_min_cost(&query, &c.partial_case_stats));
}

#[test]
fn token_children_come_before_firing_children() {
    let (net, start, t1) = small_net();
    let node = root(&net);
    let query = no_counts();
    let first = generate_children(&net, &node, &query, &Vec::new(), false);
    let with_token = &first[0];
    let counts = vec![("order".to_string(), 1)];
    let children = generate_children(&net, with_token, &query, &counts, false);
    assert_eq!(children.len(), 2);
    assert!(matches!(children[0].action, SearchNodeAction::AddToken(p) if p == start));
    match &children[1].action {
        SearchNodeAction::FireTransition(t, b) => {
            assert_eq!(*t, t1);
            assert_eq!(b.object_binding_info[0].tokens[0].id, 0);
        }
        _ => panic!("expected a firing child"),
    }
    let fired = &children[1];
    // The object node, then the event node with id 2.
    assert_eq!(fired.partial_case.nodes.len(), 2);
    assert!(matches!(&fired.partial_case.nodes[1], Node::EventNode(e) if e.id == 2 && e.event_type == "T1"));
    assert_eq!(fired.partial_case.edges.len(), 1);
    let edge = &fired.partial_case.edges[0];
    assert_eq!((edge.id, edge.from, edge.to, edge.edge_type), (1, 2, 0, EdgeType::E2O));
    assert_eq!(fired.most_recent_event_id, Some(2));
    assert_eq!(count_in(&fired.partial_case_stats.query_event_counts, "T1"), 1);
    assert_eq!(edge_count_in(&fired.partial_case_stats.query_edge_counts, EdgeType::E2O), 1);
    // The first event has no directly-follows edge, so none is counted.
    assert_eq!(edge_count_in(&fired.partial_case_stats.query_edge_counts, EdgeType::DF), 0);
    assert!(fired.marking.is_final());
    assert_eq!(fired.min_cost, calculate_min_cost(&query, &fired.partial_case_stats));
    assert_eq!(fired.min_cost, 3);
}

#[test]
fn no_token_is_added_after_a_firing() {
    let (net, _, _) = small_net();
    let query = no_counts();
    let node = root(&net);
    let with_token = generate_children(&net, &node, &query, &Vec::new(), false).remove(0);
    let counts = vec![("order".to_string(), 1)];
    let with_two = generate_children(&net, &with_token, &query, &counts, false).remove(0);
    let counts = vec![("order".to_string(), 2)];
    let fired = generate_children(&net, &with_two, &query, &counts, false).remove(2);
    assert!(matches!(fired.action, SearchNodeAction::FireTransition(_, _)));
    let children = generate_children(&net, &fired, &query, &counts, false);
    // One token is left in Start: one firing, and no token child.
    assert_eq!(children.len(), 1);
    assert!(matches!(children[0].action, SearchNodeAction::FireTransition(_, _)));
    // The second event follows the first one.
    let second = &children[0];
    assert_eq!(second.most_recent_event_id, Some(4));
    let last = second.partial_case.edges.last().unwrap();
    assert_eq!((last.from, last.to, last.edge_type), (3, 4, EdgeType::DF));
    assert_eq!(edge_count_in(&second.partial_case_stats.query_edge_counts, EdgeType::DF), 1);
}

#[test]
fn dead_places_after_a_firing_end_the_branch() {
    let (net, _, _) = small_net();
    let query = no_counts();
    let node = root(&net);
    let with_token = generate_children(&net, &node, &query, &Vec::new(), false).remove(0);
    let counts = vec![("order".to_string(), 1)];
    let fired = generate_children(&net, &with_token, &query, &counts, false).remove(1);
    assert!(generate_children(&net, &fired, &query, &counts, true).is_empty());
    // Before any firing the flag is not looked at.
    assert_eq!(generate_children(&net, &with_token, &query, &counts, true).len(), 2);
}

#[test]
fn tokens_go_only_to_types_not_followed_by_a_used_type() {
    let mut net = ObjectCentricPetriNet::new();
    let a = net.add_place(Some("A".to_string()), "apple".to_string(), true, false);
    let b = net.add_place(Some("B".to_string()), "banana".to_string(), true, false);
    let node = root(&net);
    let query = no_counts();
    let none_used = generate_children(&net, &node, &query, &Vec::new(), false);
    assert_eq!(none_used.len(), 2);
    assert!(matches!(none_used[0].action, SearchNodeAction::AddToken(p) if p == a.id));
    assert!(matches!(none_used[1].action, SearchNodeAction::AddToken(p) if p == b.id));
    let banana_used = vec![("banana".to_string(), 1)];
    let children = generate_children(&net, &node, &query, &banana_used, false);
    assert_eq!(children.len(), 1);
    assert!(matches!(children[0].action, SearchNodeAction::AddToken(p) if p == b.id));
}

#[test]
fn place_ids_are_checked_for_clashes() {
    let (net, _, _) = small_net();
    assert!(process_mining::search::check_place_ids_distinct(&net));
    let mut clash = net.clone();
    let copy = clash.places[0].clone();
    clash.places.push(copy);
    assert!(!process_mining::search::check_place_ids_distinct(&clash));
    assert!(process_mining::search::check_place_ids_distinct(&ObjectCentricPetriNet::new()));
}
