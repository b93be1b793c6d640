use hashbag::HashBag;
use process_mining::marking::{Marking, OCToken};
use process_mining::petri_net::ObjectCentricPetriNet;

/// Start -> T1 -> Middle -> T2 -> End, all places of one object type.
fn sequence_net() -> (ObjectCentricPetriNet, u128, u128, u128, u128, u128) {
    let mut net = ObjectCentricPetriNet::new();
    let p1 = net.add_place(Some("Start".to_string()), "ObjType".to_string(), true, false);
    let p2 = net.add_place(Some("Middle".to_string()), "ObjType".to_string(), false, false);
    let p3 = net.add_place(Some("End".to_string()), "ObjType".to_string(), false, true);
    let t1 = net.add_transition("T1".to_string(), None, false);
    let t2 = net.add_transition("T2".to_string(), None, false);
    assert!(net.add_input_arc(p1.id, t1.id, false, 1));
    assert!(net.add_output_arc(t1.id, p2.id, false, 1));
    assert!(net.add_input_arc(p2.id, t2.id, false, 1));
    assert!(net.add_output_arc(t2.id, p3.id, false, 1));
    (net, p1.id, p2.id, p3.id, t1.id, t2.id)
}

#[test]
fn initial_tokens_get_fresh_consecutive_ids() {
    let (net, p1, _, _, _, _) = sequence_net();
    let mut marking = Marking::new(net);
    assert_eq!(marking.add_initial_token_count(&p1, 2), vec![0, 1]);
    assert_eq!(marking.add_initial_token_count(&p1, 1), vec![2]);
    assert_eq!(marking.add_initial_token_count(&p1, 0), Vec::<usize>::new());
}

#[test]
fn empty_marking_is_final_without_tokens() {
    let (net, _, _, _, _, _) = sequence_net();
    let marking = Marking::new(net);
    assert!(marking.is_final());
    assert!(!marking.is_final_has_tokens());
}

#[test]
fn token_in_start_place_is_not_final() {
    let (net, p1, _, _, _, _) = sequence_net();
    let mut marking = Marking::new(net);
    marking.add_initial_token_count(&p1, 1);
    assert!(!marking.is_final());
    assert!(!marking.is_final_has_tokens());
}

#[test]
fn one_token_gives_one_binding() {
    let (net, p1, _, _, t1, t2) = sequence_net();
    let mut marking = Marking::new(net.clone());
    marking.add_initial_token_count(&p1, 1);
    let first = net.get_transition(&t1).unwrap();
    let second = net.get_transition(&t2).unwrap();
    let bindings = marking.get_firing_combinations(first);
    assert_eq!(bindings.len(), 1);
    let b = &bindings[0];
    assert_eq!(b.transition_id, t1);
    assert_eq!(b.object_binding_info.len(), 1);
    let info = &b.object_binding_info[0];
    assert_eq!(info.object_type, "ObjType");
    assert_eq!(info.tokens, vec![OCToken { id: 0 }]);
    assert_eq!(info.place_bindings.len(), 1);
    assert_eq!(info.place_bindings[0].place_id, p1);
    assert_eq!(info.place_bindings[0].consumed, vec![OCToken { id: 0 }]);
    assert_eq!(info.place_bindings[0].count, 1);
    assert!(marking.is_enabled(first));
    assert!(marking.get_firing_combinations(second).is_empty());
    assert!(!marking.is_enabled(second));
}

#[test]
fn two_tokens_give_two_bindings() {
    let (net, p1, _, _, t1, _) = sequence_net();
    let mut marking = Marking::new(net.clone());
    marking.add_initial_token_count(&p1, 2);
    let bindings = marking.get_firing_combinations(net.get_transition(&t1).unwrap());
    let mut tokens: Vec<usize> = bindings.iter().map(|b| b.object_binding_info[0].tokens[0].id).collect();
    tokens.sort();
    assert_eq!(tokens, vec![0, 1]);
}

#[test]
fn firing_moves_the_token_along() {
    let (net, p1, _, _, t1, t2) = sequence_net();
    let mut marking = Marking::new(net.clone());
    marking.add_initial_token_count(&p1, 1);
    let first = net.get_transition(&t1).unwrap();
    let second = net.get_transition(&t2).unwrap();

    let b = marking.get_firing_combinations(first).remove(0);
    marking.fire_transition(first, &b);
    assert!(!marking.is_enabled(first));
    assert!(marking.is_enabled(second));
    assert!(!marking.is_final());

    let b = marking.get_firing_combinations(second).remove(0);
    marking.fire_transition(second, &b);
    assert!(!marking.is_enabled(second));
    assert!(marking.is_final());
    assert!(marking.is_final_has_tokens());
}

#[test]
fn variable_arc_binds_every_nonempty_set_of_tokens() {
    let mut net = ObjectCentricPetriNet::new();
    let p = net.add_place(None, "item".to_string(), true, false);
    let q = net.add_place(None, "item".to_string(), false, true);
    let t = net.add_transition("pack".to_string(), None, false);
    net.add_input_arc(p.id, t.id, true, 1);
    net.add_output_arc(t.id, q.id, true, 1);
    let mut marking = Marking::new(net.clone());
    marking.add_initial_token_count(&p.id, 2);
    let transition = net.get_transition(&t.id).unwrap();
    let bindings = marking.get_firing_combinations(transition);
    let mut sizes: Vec<usize> = bindings.iter().map(|b| b.object_binding_info[0].tokens.len()).collect();
    sizes.sort();
    assert_eq!(sizes, vec![1, 1, 2]);
    for b in &bindings {
        let info = &b.object_binding_info[0];
        assert_eq!(info.place_bindings[0].consumed, info.tokens);
    }
}

#[test]
fn firing_all_of_a_variable_binding_empties_the_place() {
    let mut net = ObjectCentricPetriNet::new();
    let p = net.add_place(None, "item".to_string(), true, false);
    let q = net.add_place(None, "item".to_string(), false, true);
    let t = net.add_transition("pack".to_string(), None, false);
    net.add_input_arc(p.id, t.id, true, 1);
    net.add_output_arc(t.id, q.id, true, 1);
    let mut marking = Marking::new(net.clone());
    marking.add_initial_token_count(&p.id, 2);
    let transition = net.get_transition(&t.id).unwrap();
    let all = marking
        .get_firing_combinations(transition)
        .into_iter()
        .find(|b| b.object_binding_info[0].tokens.len() == 2)
        .unwrap();
    marking.fire_transition(transition, &all);
    assert!(marking.is_final_has_tokens());
    assert!(!marking.is_enabled(transition));
}

#[test]
fn two_input_places_of_one_type_need_the_same_token() {
    let mut net = ObjectCentricPetriNet::new();
    let a = net.add_place(None, "order".to_string(), true, false);
    let b = net.add_place(None, "order".to_string(), true, false);
    let t = net.add_transition("join".to_string(), None, false);
    net.add_input_arc(a.id, t.id, false, 1);
    net.add_input_arc(b.id, t.id, false, 1);
    let mut marking = Marking::new(net.clone());
    marking.add_token_unsafe(a.id, OCToken { id: 0 });
    marking.add_token_unsafe(b.id, OCToken { id: 1 });
    let transition = net.get_transition(&t.id).unwrap();
    assert!(!marking.is_enabled(transition));
    marking.add_token_unsafe(b.id, OCToken { id: 0 });
    let bindings = marking.get_firing_combinations(transition);
    assert_eq!(bindings.len(), 1);
    assert_eq!(bindings[0].object_binding_info[0].tokens, vec![OCToken { id: 0 }]);
    assert_eq!(bindings[0].object_binding_info[0].place_bindings.len(), 2);
}

#[test]
fn two_object_types_combine_as_a_product() {
    let mut net = ObjectCentricPetriNet::new();
    let orders = net.add_place(None, "order".to_string(), true, false);
    let items = net.add_place(None, "item".to_string(), true, false);
    let t = net.add_transition("place order".to_string(), None, false);
    net.add_input_arc(orders.id, t.id, false, 1);
    net.add_input_arc(items.id, t.id, false, 1);
    let mut marking = Marking::new(net.clone());
    marking.add_initial_token_count(&orders.id, 2);
    marking.add_initial_token_count(&items.id, 3);
    let bindings = marking.get_firing_combinations(net.get_transition(&t.id).unwrap());
    assert_eq!(bindings.len(), 6);
    for b in &bindings {
        assert_eq!(b.object_binding_info.len(), 2);
    }
}

#[test]
fn arc_counted_twice_needs_the_token_twice() {
    let mut net = ObjectCentricPetriNet::new();
    let p = net.add_place(None, "order".to_string(), true, false);
    let t = net.add_transition("double".to_string(), None, false);
    net.add_input_arc(p.id, t.id, false, 1);
    net.add_input_arc(p.id, t.id, false, 1);
    let mut marking = Marking::new(net.clone());
    let transition = net.get_transition(&t.id).unwrap();
    marking.add_token_unsafe(p.id, OCToken { id: 4 });
    assert!(!marking.is_enabled(transition));
    marking.add_token_unsafe(p.id, OCToken { id: 4 });
    let bindings = marking.get_firing_combinations(transition);
    assert_eq!(bindings.len(), 1);
    assert_eq!(bindings[0].object_binding_info[0].place_bindings[0].count, 2);
    assert_eq!(bindings[0].object_binding_info[0].place_bindings[0].consumed, vec![OCToken { id: 4 }, OCToken { id: 4 }]);
}

#[test]
fn initial_tokens_from_a_bag_are_added_with_their_counts() {
    let (net, p1, _, _, t1, _) = sequence_net();
    let mut marking = Marking::new(net.clone());
    let mut bag = HashBag::new();
    bag.insert_many(OCToken { id: 10 }, 2);
    bag.insert(OCToken { id: 11 });
    marking.add_initial_tokens(&p1, &bag);
    let bindings = marking.get_firing_combinations(net.get_transition(&t1).unwrap());
    let mut tokens: Vec<usize> = bindings.iter().map(|b| b.object_binding_info[0].tokens[0].id).collect();
    tokens.sort();
    assert_eq!(tokens, vec![10, 11]);
    // ids handed out later do not clash with the ones added
    let fresh = marking.add_initial_token_count(&p1, 1);
    assert_eq!(fresh, vec![12]);
}

#[test]
fn unchecked_adds_go_to_any_place() {
    let (net, _, _, p3, _, _) = sequence_net();
    let mut marking = Marking::new(net);
    let mut bag = HashBag::new();
    bag.insert(OCToken { id: 3 });
    marking._add_all_tokens_unsafe(&p3, &bag);
    assert!(marking.is_final_has_tokens());
    marking.add_token_unsafe(p3, OCToken { id: 8 });
    assert!(marking.is_final_has_tokens());
}

#[test]
fn plain_and_variable_types_combine() {
    let mut net = ObjectCentricPetriNet::new();
    let orders = net.add_place(None, "order".to_string(), true, false);
    let items = net.add_place(None, "item".to_string(), true, false);
    let t = net.add_transition("pick".to_string(), None, false);
    net.add_input_arc(orders.id, t.id, false, 1);
    net.add_input_arc(items.id, t.id, true, 1);
    let mut marking = Marking::new(net.clone());
    marking.add_initial_token_count(&orders.id, 2);
    marking.add_initial_token_count(&items.id, 2);
    let bindings = marking.get_firing_combinations(net.get_transition(&t.id).unwrap());
    // one of two orders, times one of three nonempty sets of items
    assert_eq!(bindings.len(), 6);
    let mut seen: Vec<(Vec<usize>, Vec<usize>)> = bindings
        .iter()
        .map(|b| {
            let mut order_tokens = Vec::new();
            let mut item_tokens = Vec::new();
            for info in &b.object_binding_info {
                let mut ids: Vec<usize> = info.tokens.iter().map(|t| t.id).collect();
                ids.sort();
                if info.object_type == "order" {
                    order_tokens = ids;
                } else {
                    item_tokens = ids;
                }
            }
            (order_tokens, item_tokens)
        })
        .collect();
    seen.sort();
    assert_eq!(
        seen,
        vec![
            (vec![0], vec![2]),
            (vec![0], vec![2, 3]),
            (vec![0], vec![3]),
            (vec![1], vec![2]),
            (vec![1], vec![2, 3]),
            (vec![1], vec![3]),
        ]
    );
}

#[test]
fn double_arc_firing_takes_each_token_once_per_arc() {
    let mut net = ObjectCentricPetriNet::new();
    let p = net.add_place(None, "order".to_string(), true, false);
    let q = net.add_place(None, "order".to_string(), false, true);
    let t = net.add_transition("double".to_string(), None, false);
    net.add_input_arc(p.id, t.id, false, 1);
    net.add_input_arc(p.id, t.id, false, 1);
    net.add_output_arc(t.id, q.id, false, 1);
    let mut marking = Marking::new(net.clone());
    let transition = net.get_transition(&t.id).unwrap();
    for _ in 0..3 {
        marking.add_token_unsafe(p.id, OCToken { id: 4 });
    }
    let b = marking.get_firing_combinations(transition).remove(0);
    assert_eq!(b.object_binding_info[0].place_bindings[0].consumed, vec![OCToken { id: 4 }, OCToken { id: 4 }]);
    assert_eq!(b.object_binding_info[0].place_bindings[0].count, 2);
    marking.fire_transition(transition, &b);
    // two of the three occurrences left: one remains, which is not enough to fire again
    assert!(!marking.is_enabled(transition));
    assert!(!marking.is_final());
    marking.add_token_unsafe(p.id, OCToken { id: 4 });
    assert!(marking.is_enabled(transition));
}

#[test]
fn largest_token_id_is_accepted() {
    let (net, p1, _, _, _, _) = sequence_net();
    let mut marking = Marking::new(net);
    marking.add_token_unsafe(p1, OCToken { id: usize::MAX });
    assert!(!marking.is_final());
}

#[test]
fn bag_from_tokens_counts_each_occurrence() {
    let tokens = vec![OCToken { id: 4 }, OCToken { id: 9 }, OCToken { id: 4 }];
    let bag = process_mining::marking::bag_from_tokens(&tokens);
    assert_eq!(bag.len(), 3);
    assert_eq!(bag.contains(&OCToken { id: 4 }), 2);
    assert_eq!(bag.contains(&OCToken { id: 9 }), 1);
    assert_eq!(bag.contains(&OCToken { id: 5 }), 0);
    assert!(process_mining::marking::bag_from_tokens(&Vec::new()).is_empty());
}

#[test]
fn token_count_at_counts_every_occurrence() {
    let (net, p1, p2, _, _, _) = sequence_net();
    let mut marking = Marking::new(net);
    assert_eq!(marking.token_count_at(&p1), 0);
    marking.add_initial_token_count(&p1, 2);
    marking.add_token_unsafe(p1, OCToken { id: 0 });
    assert_eq!(marking.token_count_at(&p1), 3);
    assert_eq!(marking.token_count_at(&p2), 0);
    let tokens = vec![OCToken { id: 7 }, OCToken { id: 7 }];
    assert_eq!(process_mining::marking::bag_size(&process_mining::marking::bag_from_tokens(&tokens)), 2);
}

#[test]
fn markings_made_apart_number_their_tokens_apart() {
    let (net, p1, _, _, _, _) = sequence_net();
    let mut first = Marking::new(net.clone());
    let mut second = Marking::new(net);
    // Each marking has its own counter.
    assert_eq!(first.add_initial_token_count(&p1, 1), vec![0]);
    assert_eq!(second.add_initial_token_count(&p1, 1), vec![0]);
    assert_eq!(first.add_initial_token_count(&p1, 1), vec![1]);
}
