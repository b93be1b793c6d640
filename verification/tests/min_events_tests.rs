use process_mining::min_events::compute_must_transitions;
use process_mining::petri_net::ObjectCentricPetriNet;
use std::collections::HashSet;

fn events_of(result: &[(String, Vec<(String, bool, bool)>)], ty: &str) -> HashSet<(String, bool, bool)> {
    let found: Vec<&(String, Vec<(String, bool, bool)>)> = result.iter().filter(|(t, _)| t == ty).collect();
    assert_eq!(found.len(), 1);
    found[0].1.iter().cloned().collect()
}

fn event(name: &str, not_solo: bool, not_first: bool) -> (String, bool, bool) {
    (name.to_string(), not_solo, not_first)
}

#[test]
fn sequence_must_pass_every_transition() {
    let mut net = ObjectCentricPetriNet::new();
    let p1 = net.add_place(Some("Start".to_string()), "ObjType".to_string(), true, false);
    let p2 = net.add_place(Some("Middle".to_string()), "ObjType".to_string(), false, false);
    let p3 = net.add_place(Some("End".to_string()), "ObjType".to_string(), false, true);
    let t1 = net.add_transition("T1".to_string(), None, false);
    let t2 = net.add_transition("T2".to_string(), None, false);
    net.add_input_arc(p1.id, t1.id, false, 1);
    net.add_output_arc(t1.id, p2.id, false, 1);
    net.add_input_arc(p2.id, t2.id, false, 1);
    net.add_output_arc(t2.id, p3.id, false, 1);

    let result = compute_must_transitions(&net);
    assert_eq!(result.len(), 1);
    assert_eq!(
        events_of(&result, "ObjType"),
        HashSet::from([event("T1", true, false), event("T2", true, true)])
    );
}

#[test]
fn alternative_branches_keep_only_the_common_part() {
    let mut net = ObjectCentricPetriNet::new();
    let p1 = net.add_place(Some("Start".to_string()), "ObjType".to_string(), true, false);
    let p2 = net.add_place(Some("Middle".to_string()), "ObjType".to_string(), false, false);
    let p3 = net.add_place(Some("End".to_string()), "ObjType".to_string(), false, true);
    let p4 = net.add_place(Some("Optional".to_string()), "ObjType".to_string(), false, false);
    let t1 = net.add_transition("T1".to_string(), None, false);
    let t2 = net.add_transition("T2".to_string(), None, false);
    let t3 = net.add_transition("T3".to_string(), None, true);
    net.add_input_arc(p1.id, t1.id, false, 1);
    net.add_output_arc(t1.id, p2.id, false, 1);
    net.add_input_arc(p2.id, t2.id, false, 1);
    net.add_output_arc(t2.id, p3.id, false, 1);
    net.add_input_arc(p2.id, t3.id, true, 1);
    net.add_output_arc(t3.id, p4.id, false, 1);

    let result = compute_must_transitions(&net);
    assert_eq!(events_of(&result, "ObjType"), HashSet::from([event("T1", true, false)]));
}

#[test]
fn transition_shared_with_another_type_is_solo() {
    let mut net = ObjectCentricPetriNet::new();
    let o1 = net.add_place(None, "order".to_string(), true, false);
    let o2 = net.add_place(None, "order".to_string(), false, true);
    let i1 = net.add_place(None, "item".to_string(), true, false);
    let i2 = net.add_place(None, "item".to_string(), false, true);
    let place = net.add_transition("place order".to_string(), None, false);
    net.add_input_arc(o1.id, place.id, false, 1);
    net.add_input_arc(i1.id, place.id, true, 1);
    net.add_output_arc(place.id, o2.id, false, 1);
    net.add_output_arc(place.id, i2.id, true, 1);

    let result = compute_must_transitions(&net);
    assert_eq!(result.len(), 2);
    // the order arc is plain but the item arc comes from another type
    assert_eq!(events_of(&result, "order"), HashSet::from([event("place order", false, false)]));
    // the item arc is variable
    assert_eq!(events_of(&result, "item"), HashSet::from([event("place order", false, false)]));
}

#[test]
fn loop_back_to_a_visited_place_ends_the_walk() {
    let mut net = ObjectCentricPetriNet::new();
    let p1 = net.add_place(None, "case".to_string(), true, false);
    let p2 = net.add_place(None, "case".to_string(), false, true);
    let a = net.add_transition("A".to_string(), None, false);
    let b = net.add_transition("B".to_string(), None, false);
    net.add_input_arc(p1.id, a.id, false, 1);
    net.add_output_arc(a.id, p2.id, false, 1);
    net.add_input_arc(p2.id, b.id, false, 1);
    net.add_output_arc(b.id, p1.id, false, 1);

    let result = compute_must_transitions(&net);
    // A leads on to p2; from there B only leads back to the visited start, so the walk is {A}
    assert_eq!(events_of(&result, "case"), HashSet::from([event("A", true, false)]));
}

#[test]
fn initial_place_without_successors_has_no_must_events() {
    let mut net = ObjectCentricPetriNet::new();
    net.add_place(None, "lonely".to_string(), true, true);
    net.add_place(None, "other".to_string(), false, true);
    let result = compute_must_transitions(&net);
    assert_eq!(result.len(), 1);
    assert!(events_of(&result, "lonely").is_empty());
}

#[test]
fn net_without_initial_places_has_no_types() {
    let mut net = ObjectCentricPetriNet::new();
    net.add_place(None, "order".to_string(), false, true);
    assert!(compute_must_transitions(&net).is_empty());
}

#[test]
fn two_initial_places_of_one_type_intersect_their_walks() {
    let mut net = ObjectCentricPetriNet::new();
    let s1 = net.add_place(None, "order".to_string(), true, false);
    let s2 = net.add_place(None, "order".to_string(), true, false);
    let end = net.add_place(None, "order".to_string(), false, true);
    let x = net.add_transition("X".to_string(), None, false);
    let y = net.add_transition("Y".to_string(), None, false);
    net.add_input_arc(s1.id, x.id, false, 1);
    net.add_output_arc(x.id, end.id, false, 1);
    net.add_input_arc(s2.id, y.id, false, 1);
    net.add_output_arc(y.id, end.id, false, 1);
    let result = compute_must_transitions(&net);
    assert_eq!(result.len(), 1);
    assert!(events_of(&result, "order").is_empty());
}
