//! Maximal walks through the places of one object type of a net, as sets of the
//! transitions passed, with the one-step facts that the walking code is proved against.
use crate::petri_net::{ObjectCentricPetriNet, Place};
use vstd::prelude::*;

verus! {

/// The ids of the places of `net`.
pub open spec fn place_ids(net: ObjectCentricPetriNet) -> Set<u128> {
    net.places@.map_values(|p: Place| p.id).to_set()
}

/// How many place ids of `net` are not yet in `visited`.
pub open spec fn unvisited(net: ObjectCentricPetriNet, visited: Seq<u128>) -> nat {
    place_ids(net).difference(visited.to_set()).len()
}

/// Visiting an unvisited place of the net leaves fewer places unvisited.
pub proof fn lemma_unvisited_shrinks(net: ObjectCentricPetriNet, visited: Seq<u128>, p: u128)
    requires
        net.has_place(p),
        !visited.contains(p),
    ensures
        unvisited(net, visited.push(p)) < unvisited(net, visited),
{
    broadcast use vstd::set::group_set_axioms;
    broadcast use vstd::seq_lib::group_seq_properties;

    let ids = place_ids(net);
    let i = choose|i: int| 0 <= i < net.places@.len() && net.places@[i].id == p;
    assert(net.places@.map_values(|pl: Place| pl.id)[i] == p);
    assert(ids.contains(p));
    net.places@.map_values(|pl: Place| pl.id).lemma_cardinality_of_set();
    let before = ids.difference(visited.to_set());
    let after = ids.difference(visited.push(p).to_set());
    assert(after =~= before.remove(p));
    vstd::set_lib::lemma_set_subset_finite(ids, before);
}

/// The walks from place `cur` (already in `visited`) having passed the transitions `trans`:
/// one set of passed transitions per maximal walk that enters only unvisited places of
/// object type `ty`. Where no step is possible, the walk ends here with `trans`.
pub closed spec fn place_paths(
    net: ObjectCentricPetriNet,
    cur: u128,
    ty: Seq<char>,
    trans: Seq<u128>,
    visited: Seq<u128>,
) -> Seq<Seq<u128>>
    decreases unvisited(net, visited), 2nat, 0nat, 0nat,
{
    let branches = transition_paths(net, cur, ty, trans, visited, 0, 0);
    if branches.len() == 0 {
        seq![trans]
    } else {
        branches
    }
}

/// The walks through the transitions that consume from `cur`, from transition `i` and
/// its input arc `j` on.
pub closed spec fn transition_paths(
    net: ObjectCentricPetriNet,
    cur: u128,
    ty: Seq<char>,
    trans: Seq<u128>,
    visited: Seq<u128>,
    i: nat,
    j: nat,
) -> Seq<Seq<u128>>
    decreases unvisited(net, visited), 1nat, net.transitions@.len() - i, net.transitions@[i as int].input_arcs@.len() - j,
    when i <= net.transitions@.len()
{
    if i >= net.transitions@.len() {
        Seq::empty()
    } else if j >= net.transitions@[i as int].input_arcs@.len() {
        transition_paths(net, cur, ty, trans, visited, i + 1, 0)
    } else {
        let t = net.transitions@[i as int];
        let rest = transition_paths(net, cur, ty, trans, visited, i, j + 1);
        if t.input_arcs@[j as int].source_place_id != cur || trans.contains(t.id) {
            rest
        } else {
            output_paths(net, ty, trans.push(t.id), visited, i, 0) + rest
        }
    }
}

/// The walks continuing through output arc `k` on of transition `i`.
pub closed spec fn output_paths(
    net: ObjectCentricPetriNet,
    ty: Seq<char>,
    trans: Seq<u128>,
    visited: Seq<u128>,
    i: nat,
    k: nat,
) -> Seq<Seq<u128>>
    decreases unvisited(net, visited), 0nat, net.transitions@[i as int].output_arcs@.len() - k, 0nat,
{
    if i >= net.transitions@.len() || k >= net.transitions@[i as int].output_arcs@.len() {
        Seq::empty()
    } else {
        let next = net.transitions@[i as int].output_arcs@[k as int].target_place_id;
        let rest = output_paths(net, ty, trans, visited, i, k + 1);
        if net.has_place(next) && net.place(next).object_type@ == ty && !visited.contains(next) {
            proof {
                lemma_unvisited_shrinks(net, visited, next);
            }
            place_paths(net, next, ty, trans, visited.push(next)) + rest
        } else {
            rest
        }
    }
}

pub proof fn lemma_output_step(
    net: ObjectCentricPetriNet,
    ty: Seq<char>,
    trans: Seq<u128>,
    visited: Seq<u128>,
    i: nat,
    k: nat,
)
    requires
        i < net.transitions@.len(),
        k < net.transitions@[i as int].output_arcs@.len(),
    ensures
        ({
            let next = net.transitions@[i as int].output_arcs@[k as int].target_place_id;
            output_paths(net, ty, trans, visited, i, k) == if net.has_place(next) && net.place(next).object_type@ == ty
                && !visited.contains(next) {
                place_paths(net, next, ty, trans, visited.push(next)) + output_paths(net, ty, trans, visited, i, k + 1)
            } else {
                output_paths(net, ty, trans, visited, i, k + 1)
            }
        }),
{
}

pub proof fn lemma_output_end(net: ObjectCentricPetriNet, ty: Seq<char>, trans: Seq<u128>, visited: Seq<u128>, i: nat, k: nat)
    requires
        i < net.transitions@.len(),
        k >= net.transitions@[i as int].output_arcs@.len(),
    ensures
        output_paths(net, ty, trans, visited, i, k) == Seq::<Seq<u128>>::empty(),
{
}

pub proof fn lemma_transition_step(
    net: ObjectCentricPetriNet,
    cur: u128,
    ty: Seq<char>,
    trans: Seq<u128>,
    visited: Seq<u128>,
    i: nat,
    j: nat,
)
    requires
        i < net.transitions@.len(),
    ensures
        j >= net.transitions@[i as int].input_arcs@.len() ==> transition_paths(net, cur, ty, trans, visited, i, j)
            == transition_paths(net, cur, ty, trans, visited, i + 1, 0),
        j < net.transitions@[i as int].input_arcs@.len() ==> transition_paths(net, cur, ty, trans, visited, i, j) == ({
            let t = net.transitions@[i as int];
            if t.input_arcs@[j as int].source_place_id != cur || trans.contains(t.id) {
                transition_paths(net, cur, ty, trans, visited, i, j + 1)
            } else {
                output_paths(net, ty, trans.push(t.id), visited, i, 0) + transition_paths(net, cur, ty, trans, visited, i, j + 1)
            }
        }),
{
}

pub proof fn lemma_transition_end(net: ObjectCentricPetriNet, cur: u128, ty: Seq<char>, trans: Seq<u128>, visited: Seq<u128>)
    ensures
        transition_paths(net, cur, ty, trans, visited, net.transitions@.len(), 0) == Seq::<Seq<u128>>::empty(),
{
}

pub proof fn lemma_place_paths_def(net: ObjectCentricPetriNet, cur: u128, ty: Seq<char>, trans: Seq<u128>, visited: Seq<u128>)
    ensures
        place_paths(net, cur, ty, trans, visited) == ({
            let branches = transition_paths(net, cur, ty, trans, visited, 0, 0);
            if branches.len() == 0 {
                seq![trans]
            } else {
                branches
            }
        }),
{
}

/// A walk always records at least one set of transitions.
pub proof fn lemma_place_paths_nonempty(
    net: ObjectCentricPetriNet,
    cur: u128,
    ty: Seq<char>,
    trans: Seq<u128>,
    visited: Seq<u128>,
)
    ensures
        place_paths(net, cur, ty, trans, visited).len() > 0,
{
}


/// Every element of `s` is the id of a transition of `net`.
pub open spec fn known_transitions(net: ObjectCentricPetriNet, s: Seq<u128>) -> bool {
    forall|k: int| 0 <= k < s.len() ==> net.has_transition(#[trigger] s[k])
}

/// Every recorded walk from a place passes only transitions of the net.
pub proof fn lemma_place_paths_known(
    net: ObjectCentricPetriNet,
    cur: u128,
    ty: Seq<char>,
    trans: Seq<u128>,
    visited: Seq<u128>,
)
    requires
        known_transitions(net, trans),
    ensures
        forall|q: int|
            0 <= q < place_paths(net, cur, ty, trans, visited).len() ==> known_transitions(
                net,
                #[trigger] place_paths(net, cur, ty, trans, visited)[q],
            ),
    decreases unvisited(net, visited), 2nat, 0nat, 0nat,
{
    lemma_transition_paths_known(net, cur, ty, trans, visited, 0, 0);
    lemma_place_paths_def(net, cur, ty, trans, visited);
    let branches = transition_paths(net, cur, ty, trans, visited, 0, 0);
    if branches.len() == 0 {
        assert(place_paths(net, cur, ty, trans, visited) == seq![trans]);
        assert(place_paths(net, cur, ty, trans, visited)[0] == trans);
    }
}

/// Every recorded walk through the transitions from `i` on passes only transitions of the net.
pub proof fn lemma_transition_paths_known(
    net: ObjectCentricPetriNet,
    cur: u128,
    ty: Seq<char>,
    trans: Seq<u128>,
    visited: Seq<u128>,
    i: nat,
    j: nat,
)
    requires
        known_transitions(net, trans),
        i <= net.transitions@.len(),
    ensures
        forall|q: int|
            0 <= q < transition_paths(net, cur, ty, trans, visited, i, j).len() ==> known_transitions(
                net,
                #[trigger] transition_paths(net, cur, ty, trans, visited, i, j)[q],
            ),
    decreases unvisited(net, visited), 1nat, net.transitions@.len() - i, net.transitions@[i as int].input_arcs@.len() - j,
{
    if i >= net.transitions@.len() {
        assert(transition_paths(net, cur, ty, trans, visited, i, j).len() == 0);
    } else if j >= net.transitions@[i as int].input_arcs@.len() {
        lemma_transition_paths_known(net, cur, ty, trans, visited, i + 1, 0);
        lemma_transition_step(net, cur, ty, trans, visited, i, j);
    } else {
        lemma_transition_step(net, cur, ty, trans, visited, i, j);
        let t = net.transitions@[i as int];
        lemma_transition_paths_known(net, cur, ty, trans, visited, i, j + 1);
        let rest = transition_paths(net, cur, ty, trans, visited, i, j + 1);
        if !(t.input_arcs@[j as int].source_place_id != cur || trans.contains(t.id)) {
            assert(net.has_transition(t.id));
            let trans2 = trans.push(t.id);
            assert(known_transitions(net, trans2)) by {
                assert forall|k: int| 0 <= k < trans2.len() implies net.has_transition(#[trigger] trans2[k]) by {
                    if k < trans.len() {
                        assert(trans2[k] == trans[k]);
                    }
                }
            }
            lemma_output_paths_known(net, ty, trans2, visited, i, 0);
            let front = output_paths(net, ty, trans2, visited, i, 0);
            assert forall|q: int| 0 <= q < (front + rest).len() implies known_transitions(net, #[trigger] (front + rest)[q]) by {
                if q < front.len() {
                    assert((front + rest)[q] == front[q]);
                } else {
                    assert((front + rest)[q] == rest[q - front.len()]);
                }
            }
        }
    }
}

/// Every recorded walk through the output arcs from `k` on passes only transitions of the net.
pub proof fn lemma_output_paths_known(
    net: ObjectCentricPetriNet,
    ty: Seq<char>,
    trans: Seq<u128>,
    visited: Seq<u128>,
    i: nat,
    k: nat,
)
    requires
        known_transitions(net, trans),
    ensures
        forall|q: int|
            0 <= q < output_paths(net, ty, trans, visited, i, k).len() ==> known_transitions(
                net,
                #[trigger] output_paths(net, ty, trans, visited, i, k)[q],
            ),
    decreases unvisited(net, visited), 0nat, net.transitions@[i as int].output_arcs@.len() - k, 0nat,
{
    if i >= net.transitions@.len() || k >= net.transitions@[i as int].output_arcs@.len() {
    } else {
        lemma_output_paths_known(net, ty, trans, visited, i, k + 1);
        lemma_output_step(net, ty, trans, visited, i, k);
        let next = net.transitions@[i as int].output_arcs@[k as int].target_place_id;
        let rest = output_paths(net, ty, trans, visited, i, k + 1);
        if net.has_place(next) && net.place(next).object_type@ == ty && !visited.contains(next) {
            lemma_unvisited_shrinks(net, visited, next);
            lemma_place_paths_known(net, next, ty, trans, visited.push(next));
            let front = place_paths(net, next, ty, trans, visited.push(next));
            assert forall|q: int| 0 <= q < (front + rest).len() implies known_transitions(net, #[trigger] (front + rest)[q]) by {
                if q < front.len() {
                    assert((front + rest)[q] == front[q]);
                } else {
                    assert((front + rest)[q] == rest[q - front.len()]);
                }
            }
        }
    }
}

/// `s` is `base` followed by transitions of the net only.
pub open spec fn extends_with_transitions(net: ObjectCentricPetriNet, base: Seq<u128>, s: Seq<u128>) -> bool {
    &&& base.len() <= s.len()
    &&& s.subrange(0, base.len() as int) == base
    &&& forall|k: int| base.len() <= k < s.len() ==> net.has_transition(#[trigger] s[k])
}

/// Passing one more transition of the net keeps a walk an extension of `base`.
proof fn lemma_extends_push(net: ObjectCentricPetriNet, base: Seq<u128>, s: Seq<u128>, t: u128)
    requires
        extends_with_transitions(net, base, s),
        net.has_transition(t),
    ensures
        extends_with_transitions(net, base, s.push(t)),
{
    assert(s.push(t).subrange(0, base.len() as int) =~= s.subrange(0, base.len() as int));
    assert forall|k: int| base.len() <= k < s.push(t).len() implies net.has_transition(#[trigger] s.push(t)[k]) by {
        if k < s.len() {
            assert(s.push(t)[k] == s[k]);
        }
    }
}

/// Every walk recorded from a place extends the transitions passed so far by transitions
/// of the net.
pub proof fn lemma_place_paths_extend(
    net: ObjectCentricPetriNet,
    base: Seq<u128>,
    cur: u128,
    ty: Seq<char>,
    trans: Seq<u128>,
    visited: Seq<u128>,
)
    requires
        extends_with_transitions(net, base, trans),
    ensures
        forall|q: int|
            0 <= q < place_paths(net, cur, ty, trans, visited).len() ==> extends_with_transitions(
                net,
                base,
                #[trigger] place_paths(net, cur, ty, trans, visited)[q],
            ),
    decreases unvisited(net, visited), 2nat, 0nat, 0nat,
{
    lemma_transition_paths_extend(net, base, cur, ty, trans, visited, 0, 0);
    lemma_place_paths_def(net, cur, ty, trans, visited);
    let branches = transition_paths(net, cur, ty, trans, visited, 0, 0);
    if branches.len() == 0 {
        assert(place_paths(net, cur, ty, trans, visited)[0] == trans);
    }
}

proof fn lemma_transition_paths_extend(
    net: ObjectCentricPetriNet,
    base: Seq<u128>,
    cur: u128,
    ty: Seq<char>,
    trans: Seq<u128>,
    visited: Seq<u128>,
    i: nat,
    j: nat,
)
    requires
        extends_with_transitions(net, base, trans),
        i <= net.transitions@.len(),
    ensures
        forall|q: int|
            0 <= q < transition_paths(net, cur, ty, trans, visited, i, j).len() ==> extends_with_transitions(
                net,
                base,
                #[trigger] transition_paths(net, cur, ty, trans, visited, i, j)[q],
            ),
    decreases unvisited(net, visited), 1nat, net.transitions@.len() - i, net.transitions@[i as int].input_arcs@.len() - j,
{
    if i >= net.transitions@.len() {
        assert(transition_paths(net, cur, ty, trans, visited, i, j).len() == 0);
    } else if j >= net.transitions@[i as int].input_arcs@.len() {
        lemma_transition_paths_extend(net, base, cur, ty, trans, visited, i + 1, 0);
        lemma_transition_step(net, cur, ty, trans, visited, i, j);
    } else {
        lemma_transition_step(net, cur, ty, trans, visited, i, j);
        let t = net.transitions@[i as int];
        lemma_transition_paths_extend(net, base, cur, ty, trans, visited, i, j + 1);
        let rest = transition_paths(net, cur, ty, trans, visited, i, j + 1);
        if !(t.input_arcs@[j as int].source_place_id != cur || trans.contains(t.id)) {
            assert(net.has_transition(t.id));
            let trans2 = trans.push(t.id);
            lemma_extends_push(net, base, trans, t.id);
            lemma_output_paths_extend(net, base, ty, trans2, visited, i, 0);
            let front = output_paths(net, ty, trans2, visited, i, 0);
            assert forall|q: int| 0 <= q < (front + rest).len() implies extends_with_transitions(
                net,
                base,
                #[trigger] (front + rest)[q],
            ) by {
                if q < front.len() {
                    assert((front + rest)[q] == front[q]);
                } else {
                    assert((front + rest)[q] == rest[q - front.len()]);
                }
            }
        }
    }
}

proof fn lemma_output_paths_extend(
    net: ObjectCentricPetriNet,
    base: Seq<u128>,
    ty: Seq<char>,
    trans: Seq<u128>,
    visited: Seq<u128>,
    i: nat,
    k: nat,
)
    requires
        extends_with_transitions(net, base, trans),
    ensures
        forall|q: int|
            0 <= q < output_paths(net, ty, trans, visited, i, k).len() ==> extends_with_transitions(
                net,
                base,
                #[trigger] output_paths(net, ty, trans, visited, i, k)[q],
            ),
    decreases unvisited(net, visited), 0nat, net.transitions@[i as int].output_arcs@.len() - k, 0nat,
{
    if i >= net.transitions@.len() || k >= net.transitions@[i as int].output_arcs@.len() {
    } else {
        lemma_output_paths_extend(net, base, ty, trans, visited, i, k + 1);
        lemma_output_step(net, ty, trans, visited, i, k);
        let next = net.transitions@[i as int].output_arcs@[k as int].target_place_id;
        let rest = output_paths(net, ty, trans, visited, i, k + 1);
        if net.has_place(next) && net.place(next).object_type@ == ty && !visited.contains(next) {
            lemma_unvisited_shrinks(net, visited, next);
            lemma_place_paths_extend(net, base, next, ty, trans, visited.push(next));
            let front = place_paths(net, next, ty, trans, visited.push(next));
            assert forall|q: int| 0 <= q < (front + rest).len() implies extends_with_transitions(
                net,
                base,
                #[trigger] (front + rest)[q],
            ) by {
                if q < front.len() {
                    assert((front + rest)[q] == front[q]);
                } else {
                    assert((front + rest)[q] == rest[q - front.len()]);
                }
            }
        }
    }
}

} // verus!
