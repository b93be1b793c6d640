//! Transitions that every acyclic run of an object type passes through, found by
//! walking from each initial place along places of the same object type.
use crate::petri_net::{InputArc, ObjectCentricPetriNet, Transition};
use crate::walks::{
    extends_with_transitions, known_transitions, lemma_output_end, lemma_place_paths_extend, lemma_output_step, lemma_place_paths_def, lemma_place_paths_known,
    lemma_place_paths_nonempty, lemma_transition_end, lemma_transition_step, lemma_unvisited_shrinks, output_paths,
    place_paths, transition_paths, unvisited,
};
use vstd::prelude::*;

verus! {

/// Whether `ids` holds `x`.
fn contains_id(ids: &Vec<u128>, x: u128) -> (r: bool)
    ensures
        r == ids@.contains(x),
{
    let mut i: usize = 0;
    while i < ids.len()
        invariant
            i <= ids.len(),
            forall|q: int| 0 <= q < i ==> ids@[q] != x,
        decreases ids.len() - i,
    {
        if ids[i] == x {
            return true;
        }
        i += 1;
    }
    false
}

/// A copy of a list of ids.
fn copy_ids(ids: &Vec<u128>) -> (r: Vec<u128>)
    ensures
        r@ == ids@,
{
    let r = ids.clone();
    assert(r@ =~= ids@);
    r
}

/// Follows every output arc of transition `i` into an unvisited place of type `obj_type`
/// and walks on from there; returns whether there was such a place.
fn follow_outputs(
    net: &ObjectCentricPetriNet,
    i: usize,
    obj_type: &String,
    new_transitions: &Vec<u128>,
    visited_places: &Vec<u128>,
    collected_paths: &mut Vec<Vec<u128>>,
) -> (found: bool)
    requires
        i < net.transitions@.len(),
    ensures
        final(collected_paths)@.map_values(|v: Vec<u128>| v@) == old(collected_paths)@.map_values(|v: Vec<u128>| v@)
            + output_paths(*net, obj_type@, new_transitions@, visited_places@, i as nat, 0),
        found <==> final(collected_paths)@.len() > old(collected_paths)@.len(),
    decreases unvisited(*net, visited_places@), 0nat,
{
    let t = &net.transitions[i];
    let ghost ty = obj_type@;
    let ghost trans2 = new_transitions@;
    let ghost visited = visited_places@;
    let ghost mid = collected_paths@.map_values(|v: Vec<u128>| v@);
    let ghost mid_len = collected_paths@.len();
    let mut found = false;
    let mut k: usize = 0;
    while k < t.output_arcs.len()
        invariant
            i < net.transitions.len(),
            t == &net.transitions@[i as int],
            k <= t.output_arcs.len(),
            visited_places@ == visited,
            ty == obj_type@,
            new_transitions@ == trans2,
            collected_paths@.map_values(|v: Vec<u128>| v@) + output_paths(*net, ty, trans2, visited, i as nat, k as nat)
                == mid + output_paths(*net, ty, trans2, visited, i as nat, 0),
            found <==> collected_paths@.len() > mid_len,
            collected_paths@.len() >= mid_len,
            mid_len == mid.len(),
        decreases t.output_arcs.len() - k,
    {
        let next = t.output_arcs[k].target_place_id;
        let ghost before = collected_paths@.map_values(|v: Vec<u128>| v@);
        proof {
            lemma_output_step(*net, ty, trans2, visited, i as nat, k as nat);
        }
        match net.get_place(&next) {
            Some(next_place) => {
                if next_place.object_type == *obj_type && !contains_id(visited_places, next) {
                    found = true;
                    proof {
                        lemma_unvisited_shrinks(*net, visited, next);
                    }
                    let mut branch_visited = copy_ids(visited_places);
                    dfs_collect_paths(net, next, obj_type, new_transitions, &mut branch_visited, collected_paths);
                    proof {
                        lemma_place_paths_nonempty(*net, next, ty, trans2, visited.push(next));
                        assert(before + output_paths(*net, ty, trans2, visited, i as nat, k as nat)
                            =~= (before + place_paths(*net, next, ty, trans2, visited.push(next)))
                            + output_paths(*net, ty, trans2, visited, i as nat, (k + 1) as nat));
                    }
                }
            },
            None => {},
        }
        k += 1;
    }
    proof {
        lemma_output_end(*net, ty, trans2, visited, i as nat, k as nat);
        let now = collected_paths@.map_values(|v: Vec<u128>| v@);
        assert(now + output_paths(*net, ty, trans2, visited, i as nat, k as nat) =~= now);
    }
    found
}

/// Walks from place `current_place_id` and appends to `collected_paths` the set of
/// transitions passed on each maximal walk through unvisited places of type `obj_type`:
/// each such set is `current_transitions` followed by transitions of the net. The start
/// place is added to `visited_places`; each branch of the walk goes on with its own copy
/// of them.
fn dfs_collect_paths(
    net: &ObjectCentricPetriNet,
    current_place_id: u128,
    obj_type: &String,
    current_transitions: &Vec<u128>,
    visited_places: &mut Vec<u128>,
    collected_paths: &mut Vec<Vec<u128>>,
)
    requires
        net.has_place(current_place_id),
        !old(visited_places)@.contains(current_place_id),
    ensures
        final(visited_places)@ == old(visited_places)@.push(current_place_id),
        final(collected_paths)@.map_values(|v: Vec<u128>| v@) == old(collected_paths)@.map_values(
            |v: Vec<u128>| v@,
        ) + place_paths(*net, current_place_id, obj_type@, current_transitions@, final(visited_places)@),
        forall|q: int|
            old(collected_paths)@.len() <= q < final(collected_paths)@.len() ==> extends_with_transitions(
                *net,
                current_transitions@,
                #[trigger] final(collected_paths)@[q]@,
            ),
    decreases unvisited(*net, old(visited_places)@.push(current_place_id)), 1nat,
{
    let ghost v0 = visited_places@;
    visited_places.push(current_place_id);
    let ghost visited = visited_places@;
    let ghost ty = obj_type@;
    let ghost trans = current_transitions@;
    let ghost start = collected_paths@.map_values(|v: Vec<u128>| v@);
    proof {
        lemma_unvisited_shrinks(*net, v0, current_place_id);
    }
    let mut has_successor = false;
    let mut i: usize = 0;
    while i < net.transitions.len()
        invariant
            i <= net.transitions.len(),
            visited_places@ == visited,
            visited == v0.push(current_place_id),
            v0 == old(visited_places)@,
            unvisited(*net, visited) < unvisited(*net, v0),
            ty == obj_type@,
            trans == current_transitions@,
            collected_paths@.map_values(|v: Vec<u128>| v@) + transition_paths(*net, current_place_id, ty, trans, visited, i as nat, 0)
                == start + transition_paths(*net, current_place_id, ty, trans, visited, 0, 0),
            has_successor <==> collected_paths@.len() > start.len(),
            collected_paths@.len() >= start.len(),
        decreases net.transitions.len() - i,
    {
        let t = &net.transitions[i];
        let mut j: usize = 0;
        while j < t.input_arcs.len()
            invariant
                i < net.transitions.len(),
                t == &net.transitions@[i as int],
                j <= t.input_arcs.len(),
                visited_places@ == visited,
                visited == v0.push(current_place_id),
                v0 == old(visited_places)@,
                unvisited(*net, visited) < unvisited(*net, v0),
                ty == obj_type@,
                trans == current_transitions@,
                collected_paths@.map_values(|v: Vec<u128>| v@) + transition_paths(*net, current_place_id, ty, trans, visited, i as nat, j as nat)
                    == start + transition_paths(*net, current_place_id, ty, trans, visited, 0, 0),
                has_successor <==> collected_paths@.len() > start.len(),
                collected_paths@.len() >= start.len(),
            decreases t.input_arcs.len() - j,
        {
            proof {
                lemma_transition_step(*net, current_place_id, ty, trans, visited, i as nat, j as nat);
            }
            let ghost mid = collected_paths@.map_values(|v: Vec<u128>| v@);
            if t.input_arcs[j].source_place_id == current_place_id && !contains_id(current_transitions, t.id) {
                let mut new_transitions = copy_ids(current_transitions);
                new_transitions.push(t.id);
                let ghost trans2 = new_transitions@;
                let found = follow_outputs(net, i, obj_type, &new_transitions, visited_places, collected_paths);
                if found {
                    has_successor = true;
                }
                proof {
                    assert(mid + transition_paths(*net, current_place_id, ty, trans, visited, i as nat, j as nat)
                        =~= (mid + output_paths(*net, ty, trans2, visited, i as nat, 0))
                        + transition_paths(*net, current_place_id, ty, trans, visited, i as nat, (j + 1) as nat));
                }
            }
            j += 1;
        }
        proof {
            lemma_transition_step(*net, current_place_id, ty, trans, visited, i as nat, j as nat);
        }
        i += 1;
    }
    proof {
        lemma_transition_end(*net, current_place_id, ty, trans, visited);
        lemma_place_paths_def(*net, current_place_id, ty, trans, visited);
        let now = collected_paths@.map_values(|v: Vec<u128>| v@);
        let branches = transition_paths(*net, current_place_id, ty, trans, visited, 0, 0);
        assert(now + transition_paths(*net, current_place_id, ty, trans, visited, i as nat, 0) =~= now);
        assert(now =~= start + branches);
        assert(has_successor <==> branches.len() > 0);
    }
    if !has_successor {
        let ghost before = collected_paths@.map_values(|v: Vec<u128>| v@);
        collected_paths.push(copy_ids(current_transitions));
        proof {
            assert(collected_paths@.map_values(|v: Vec<u128>| v@) =~= before.push(trans));
            assert(before.push(trans) =~= start + seq![trans]);
        }
    }
    proof {
        let paths = place_paths(*net, current_place_id, ty, trans, visited);
        assert(trans.subrange(0, trans.len() as int) =~= trans);
        lemma_place_paths_extend(*net, trans, current_place_id, ty, trans, visited);
        assert forall|q: int| start.len() <= q < collected_paths@.len() implies extends_with_transitions(
            *net,
            trans,
            #[trigger] collected_paths@[q]@,
        ) by {
            let now = collected_paths@.map_values(|v: Vec<u128>| v@);
            assert(now[q] == collected_paths@[q]@);
            assert(now[q] == paths[q - start.len()]);
        }
    }
}


/// The walks recorded from the initial places of type `ty` among the first `n` places.
pub open spec fn type_paths(net: ObjectCentricPetriNet, ty: Seq<char>, n: nat) -> Seq<Seq<u128>>
    decreases n,
{
    if n == 0 || n > net.places@.len() {
        Seq::empty()
    } else {
        let p = net.places@[n - 1];
        type_paths(net, ty, (n - 1) as nat) + if p.initial && p.object_type@ == ty {
            place_paths(net, p.id, ty, Seq::empty(), seq![p.id])
        } else {
            Seq::empty()
        }
    }
}

/// The ids that occur in each of `paths` (none where there is no path).
pub open spec fn common_ids(paths: Seq<Seq<u128>>) -> Set<u128> {
    Set::new(|t: u128| paths.len() > 0 && forall|q: int| 0 <= q < paths.len() ==> #[trigger] paths[q].contains(t))
}

/// The transitions passed on every maximal walk from an initial place of type `ty`.
pub open spec fn must_transition_ids(net: ObjectCentricPetriNet, ty: Seq<char>) -> Set<u128> {
    common_ids(type_paths(net, ty, net.places@.len()))
}

/// Some initial place among the first `n` has object type `ty`.
pub open spec fn initial_type_among(net: ObjectCentricPetriNet, ty: Seq<char>, n: int) -> bool {
    exists|i: int| 0 <= i < n && (#[trigger] net.places@[i]).initial && net.places@[i].object_type@ == ty
}

/// The object types of the initial places.
pub open spec fn initial_types(net: ObjectCentricPetriNet) -> Set<Seq<char>> {
    Set::new(|ty: Seq<char>| initial_type_among(net, ty, net.places@.len() as int))
}

/// The arc comes from a place of another type than `ty`, or is variable.
#[verifier::opaque]
pub open spec fn arc_shares_event(net: ObjectCentricPetriNet, arc: InputArc, ty: Seq<char>) -> bool {
    net.place(arc.source_place_id).object_type@ != ty || arc.variable
}

/// The event of `t` is shared, not solo, for type `ty`: some input arc of `t` comes from
/// a place of another type than `ty`, or is variable.
pub open spec fn shared_transition(net: ObjectCentricPetriNet, t: Transition, ty: Seq<char>) -> bool {
    exists|a: int| 0 <= a < t.input_arcs@.len() && #[trigger] arc_shares_event(net, t.input_arcs@[a], ty)
}

/// The arc comes from an initial place.
#[verifier::opaque]
pub open spec fn arc_from_initial(net: ObjectCentricPetriNet, arc: InputArc) -> bool {
    net.place(arc.source_place_id).initial
}

/// Every input arc of `t` comes from an initial place.
pub open spec fn can_be_first_event(net: ObjectCentricPetriNet, t: Transition) -> bool {
    forall|a: int| 0 <= a < t.input_arcs@.len() ==> #[trigger] arc_from_initial(net, t.input_arcs@[a])
}

/// Every input arc of `t` comes from a place of the net.
pub open spec fn sources_known(net: ObjectCentricPetriNet, t: Transition) -> bool {
    forall|a: int| 0 <= a < t.input_arcs@.len() ==> net.has_place(#[trigger] t.input_arcs@[a].source_place_id)
}

/// `id` names a transition of the net whose input arcs all come from places of the net.
#[verifier::opaque]
pub open spec fn reportable(net: ObjectCentricPetriNet, id: u128) -> bool {
    net.has_transition(id) && sources_known(net, transition_of(net, id))
}

/// The transition with id `id`.
pub open spec fn transition_of(net: ObjectCentricPetriNet, id: u128) -> Transition {
    net.transitions@[net.transition_index(id)]
}

/// What is reported of the must-transition `id` for type `ty`: its name, whether its event
/// is solo (not shared), and whether it cannot be the first event.
#[verifier::opaque]
pub open spec fn event_of(net: ObjectCentricPetriNet, id: u128, ty: Seq<char>) -> (Seq<char>, bool, bool) {
    let t = transition_of(net, id);
    (t.name@, !shared_transition(net, t, ty), !can_be_first_event(net, t))
}

/// The reported events of type `ty`.
pub open spec fn must_events(net: ObjectCentricPetriNet, ty: Seq<char>) -> Set<(Seq<char>, bool, bool)> {
    must_transition_ids(net, ty).map(|id: u128| event_of(net, id, ty))
}

/// An event as text and flags.
pub open spec fn event_view(e: (String, bool, bool)) -> (Seq<char>, bool, bool) {
    (e.0@, e.1, e.2)
}

/// A list of events as text and flags.
pub open spec fn event_views(v: Seq<(String, bool, bool)>) -> Seq<(Seq<char>, bool, bool)> {
    v.map_values(|e: (String, bool, bool)| event_view(e))
}

/// The input arcs of every must-transition come from places of the net.
pub open spec fn must_sources_known(net: ObjectCentricPetriNet) -> bool {
    forall|ty: Seq<char>, id: u128|
        initial_types(net).contains(ty) && #[trigger] must_transition_ids(net, ty).contains(id) ==> sources_known(
            net,
            transition_of(net, id),
        )
}

/// Every recorded walk of type `ty` passes only transitions of the net.
proof fn lemma_type_paths_known(net: ObjectCentricPetriNet, ty: Seq<char>, n: nat)
    ensures
        forall|q: int| 0 <= q < type_paths(net, ty, n).len() ==> known_transitions(net, #[trigger] type_paths(net, ty, n)[q]),
    decreases n,
{
    if n == 0 || n > net.places@.len() {
    } else {
        lemma_type_paths_known(net, ty, (n - 1) as nat);
        let p = net.places@[n - 1];
        let front = type_paths(net, ty, (n - 1) as nat);
        if p.initial && p.object_type@ == ty {
            lemma_place_paths_known(net, p.id, ty, Seq::empty(), seq![p.id]);
            let back = place_paths(net, p.id, ty, Seq::empty(), seq![p.id]);
            assert forall|q: int| 0 <= q < (front + back).len() implies known_transitions(net, #[trigger] (front + back)[q]) by {
                if q < front.len() {
                    assert((front + back)[q] == front[q]);
                } else {
                    assert((front + back)[q] == back[q - front.len()]);
                }
            }
        } else {
            assert(front + Seq::<Seq<u128>>::empty() =~= front);
        }
    }
}

/// Every must-transition is a transition of the net.
pub proof fn lemma_must_transitions_known(net: ObjectCentricPetriNet, ty: Seq<char>, id: u128)
    requires
        must_transition_ids(net, ty).contains(id),
    ensures
        net.has_transition(id),
{
    let paths = type_paths(net, ty, net.places@.len());
    lemma_type_paths_known(net, ty, net.places@.len());
    assert(paths[0].contains(id));
    let k = choose|k: int| 0 <= k < paths[0].len() && paths[0][k] == id;
    assert(known_transitions(net, paths[0]));
}

/// The texts of a list of strings.
pub open spec fn string_views(v: Seq<String>) -> Seq<Seq<char>> {
    v.map_values(|s: String| s@)
}

/// The object types of the initial places, each once, in the order of the places.
fn initial_object_types(net: &ObjectCentricPetriNet) -> (r: Vec<String>)
    ensures
        string_views(r@).no_duplicates(),
        string_views(r@).to_set() == initial_types(*net),
{
    let mut r: Vec<String> = Vec::new();
    let mut i: usize = 0;
    while i < net.places.len()
        invariant
            i <= net.places@.len(),
            string_views(r@).no_duplicates(),
            forall|ty: Seq<char>|
                #[trigger] string_views(r@).contains(ty) <==> initial_type_among(*net, ty, i as int),
        decreases net.places.len() - i,
    {
        let p = &net.places[i];
        let ghost before = string_views(r@);
        if p.initial {
            let mut seen = false;
            let mut k: usize = 0;
            while k < r.len()
                invariant
                    k <= r@.len(),
                    seen <==> exists|q: int| 0 <= q < k && r@[q]@ == p.object_type@,
                decreases r.len() - k,
            {
                if r[k] == p.object_type {
                    seen = true;
                }
                k += 1;
            }
            if !seen {
                r.push(p.object_type.clone());
                proof {
                    assert(string_views(r@) =~= before.push(p.object_type@));
                    assert forall|a: int, b: int| 0 <= a < b < before.push(p.object_type@).len() implies
                        before.push(p.object_type@)[a] != before.push(p.object_type@)[b] by {
                        if b == before.len() {
                            assert(before[a] == r@[a]@);
                        }
                    }
                }
            } else {
                proof {
                    let q = choose|q: int| 0 <= q < k && r@[q]@ == p.object_type@;
                    assert(before[q] == p.object_type@);
                }
            }
        }
        proof {
            let now = string_views(r@);
            assert forall|ty: Seq<char>|
                #[trigger] now.contains(ty) <==> initial_type_among(*net, ty, i + 1) by {
                if now.contains(ty) {
                    if !before.contains(ty) {
                        assert(net.places@[i as int].object_type@ == ty);
                    }
                }
                if initial_type_among(*net, ty, i + 1) {
                    let k = choose|k: int| 0 <= k < i + 1 && (#[trigger] net.places@[k]).initial && net.places@[k].object_type@ == ty;
                    if k < i {
                        assert(before.contains(ty));
                        let q = choose|q: int| 0 <= q < before.len() && before[q] == ty;
                        assert(now[q] == ty);
                    } else {
                        if !before.contains(ty) {
                            assert(now[now.len() - 1] == ty);
                        } else {
                            let q = choose|q: int| 0 <= q < before.len() && before[q] == ty;
                            assert(now[q] == ty);
                        }
                    }
                }
            }
        }
        i += 1;
    }
    proof {
        let now = string_views(r@);
        assert(now.to_set() =~= initial_types(*net)) by {
            assert forall|ty: Seq<char>| now.to_set().contains(ty) <==> initial_types(*net).contains(ty) by {
                if initial_types(*net).contains(ty) {
                    assert(now.contains(ty));
                }
            }
        }
    }
    r
}


/// The walks of type `ty` from every initial place of that type, in the order of the places.
fn collect_type_paths(net: &ObjectCentricPetriNet, obj_type: &String) -> (r: Vec<Vec<u128>>)
    ensures
        r@.map_values(|v: Vec<u128>| v@) == type_paths(*net, obj_type@, net.places@.len()),
{
    let mut r: Vec<Vec<u128>> = Vec::new();
    let mut i: usize = 0;
    while i < net.places.len()
        invariant
            i <= net.places@.len(),
            r@.map_values(|v: Vec<u128>| v@) == type_paths(*net, obj_type@, i as nat),
        decreases net.places.len() - i,
    {
        let p = &net.places[i];
        let ghost before = r@.map_values(|v: Vec<u128>| v@);
        if p.initial && p.object_type == *obj_type {
            let no_transitions: Vec<u128> = Vec::new();
            let mut no_places: Vec<u128> = Vec::new();
            proof {
                assert(net.has_place(p.id)) by {
                    assert(net.places@[i as int].id == p.id);
                }
                assert(no_places@.push(p.id) =~= seq![p.id]);
            }
            dfs_collect_paths(net, p.id, obj_type, &no_transitions, &mut no_places, &mut r);
        } else {
            assert(before + Seq::<Seq<u128>>::empty() =~= before);
        }
        i += 1;
    }
    r
}

/// Whether `x` occurs in each of `paths`.
fn in_every_path(paths: &Vec<Vec<u128>>, x: u128) -> (r: bool)
    ensures
        r == forall|q: int| 0 <= q < paths@.len() ==> #[trigger] paths@[q]@.contains(x),
{
    let mut q: usize = 0;
    while q < paths.len()
        invariant
            q <= paths@.len(),
            forall|k: int| 0 <= k < q ==> #[trigger] paths@[k]@.contains(x),
        decreases paths.len() - q,
    {
        if !contains_id(&paths[q], x) {
            return false;
        }
        q += 1;
    }
    true
}

/// The ids that occur in every one of `paths`, each once.
fn intersect_paths(paths: &Vec<Vec<u128>>) -> (r: Vec<u128>)
    ensures
        r@.no_duplicates(),
        r@.to_set() == common_ids(paths@.map_values(|v: Vec<u128>| v@)),
{
    let ghost views = paths@.map_values(|v: Vec<u128>| v@);
    let mut r: Vec<u128> = Vec::new();
    if paths.len() == 0 {
        assert(r@.to_set() =~= common_ids(views));
        return r;
    }
    let first = &paths[0];
    let mut k: usize = 0;
    while k < first.len()
        invariant
            paths@.len() > 0,
            first == &paths@[0],
            views == paths@.map_values(|v: Vec<u128>| v@),
            k <= first@.len(),
            r@.no_duplicates(),
            forall|t: u128| #[trigger] r@.contains(t) <==> (first@.take(k as int).contains(t) && common_ids(views).contains(t)),
        decreases first.len() - k,
    {
        let x = first[k];
        let ghost before = r@;
        let fresh = !contains_id(&r, x);
        let common = in_every_path(paths, x);
        if fresh && common {
            r.push(x);
        }
        proof {
            broadcast use vstd::seq_lib::lemma_seq_contains_after_push;

            assert(first@.take(k + 1) =~= first@.take(k as int).push(x));
            assert(common <==> common_ids(views).contains(x)) by {
                if common {
                    assert forall|q: int| 0 <= q < views.len() implies #[trigger] views[q].contains(x) by {
                        assert(paths@[q]@.contains(x));
                    }
                }
                if common_ids(views).contains(x) {
                    assert forall|q: int| 0 <= q < paths@.len() implies #[trigger] paths@[q]@.contains(x) by {
                        assert(views[q].contains(x));
                    }
                }
            }
            if fresh && common {
                assert forall|a: int, b: int| 0 <= a < b < r@.len() implies r@[a] != r@[b] by {
                    if b == before.len() {
                        assert(before.contains(before[a]));
                    }
                }
            }
        }
        k += 1;
    }
    proof {
        assert(first@.take(k as int) =~= first@);
        assert(r@.to_set() =~= common_ids(views)) by {
            assert forall|t: u128| r@.to_set().contains(t) <==> common_ids(views).contains(t) by {
                if common_ids(views).contains(t) {
                    assert(views[0].contains(t));
                    assert(views[0] == first@);
                }
            }
        }
    }
    r
}


/// Whether `arc` comes from another type than `obj_type` or is variable, and whether it
/// comes from an initial place.
fn arc_info(net: &ObjectCentricPetriNet, arc: &InputArc, obj_type: &String) -> (r: (bool, bool))
    requires
        net.has_place(arc.source_place_id),
    ensures
        r.0 == arc_shares_event(*net, *arc, obj_type@),
        r.1 == arc_from_initial(*net, *arc),
{
    proof {
        reveal(arc_shares_event);
        reveal(arc_from_initial);
    }
    let p = net.get_place(&arc.source_place_id).unwrap();
    (!(p.object_type == *obj_type) || arc.variable, p.initial)
}

/// Whether the event of `t` is shared (not solo) for `obj_type`, and whether it can be the first event.
fn transition_flags(net: &ObjectCentricPetriNet, t: &Transition, obj_type: &String) -> (r: (bool, bool))
    requires
        sources_known(*net, *t),
    ensures
        r.0 == shared_transition(*net, *t, obj_type@),
        r.1 == can_be_first_event(*net, *t),
{
    let mut shared = false;
    let mut first = true;
    let mut a: usize = 0;
    while a < t.input_arcs.len()
        invariant
            sources_known(*net, *t),
            a <= t.input_arcs@.len(),
            shared == exists|b: int| 0 <= b < a && #[trigger] arc_shares_event(*net, t.input_arcs@[b], obj_type@),
            first == forall|b: int| 0 <= b < a ==> #[trigger] arc_from_initial(*net, t.input_arcs@[b]),
        decreases t.input_arcs@.len() - a,
    {
        let arc = &t.input_arcs[a];
        proof {
            assert(net.has_place(t.input_arcs@[a as int].source_place_id));
        }
        let (shares, initial) = arc_info(net, arc, obj_type);
        if shares {
            shared = true;
        }
        if !initial {
            first = false;
        }
        a += 1;
    }
    (shared, first)
}

/// The event reported for the must-transition `id` of type `obj_type`.
fn event_for(net: &ObjectCentricPetriNet, id: u128, obj_type: &String) -> (r: (String, bool, bool))
    requires
        reportable(*net, id),
    ensures
        event_view(r) == event_of(*net, id, obj_type@),
{
    proof {
        reveal(reportable);
    }
    let t = net.get_transition(&id).unwrap();
    let (shared, first) = transition_flags(net, t, obj_type);
    proof {
        reveal(event_of);
    }
    (t.name.clone(), !shared, !first)
}

/// Whether `evs` holds an event equal to `e`.
fn contains_event(evs: &Vec<(String, bool, bool)>, e: &(String, bool, bool)) -> (r: bool)
    ensures
        r == event_views(evs@).contains(event_view(*e)),
{
    let ghost views = event_views(evs@);
    let mut i: usize = 0;
    while i < evs.len()
        invariant
            i <= evs@.len(),
            views == event_views(evs@),
            forall|q: int| 0 <= q < i ==> views[q] != event_view(*e),
        decreases evs.len() - i,
    {
        let x = &evs[i];
        if x.0 == e.0 && x.1 == e.1 && x.2 == e.2 {
            proof {
                assert(views[i as int] == event_view(*e));
            }
            return true;
        }
        proof {
            assert(views[i as int] == event_view(*x));
        }
        i += 1;
    }
    false
}

/// The events of the transitions `ids` for type `obj_type`, each once.
fn events_of(net: &ObjectCentricPetriNet, obj_type: &String, ids: &Vec<u128>) -> (r: Vec<(String, bool, bool)>)
    requires
        forall|q: int| 0 <= q < ids@.len() ==> reportable(*net, #[trigger] ids@[q]),
    ensures
        event_views(r@).no_duplicates(),
        event_views(r@).to_set() == ids@.to_set().map(
            |id: u128| event_of(*net, id, obj_type@),
        ),
{
    let mut r: Vec<(String, bool, bool)> = Vec::new();
    let mut k: usize = 0;
    while k < ids.len()
        invariant
            k <= ids@.len(),
            forall|q: int| 0 <= q < ids@.len() ==> reportable(*net, #[trigger] ids@[q]),
            event_views(r@).no_duplicates(),
            forall|e: (Seq<char>, bool, bool)|
                #[trigger] event_views(r@).contains(e) <==> exists|q: int|
                    0 <= q < k && event_of(*net, #[trigger] ids@[q], obj_type@) == e,
        decreases ids.len() - k,
    {
        let e = event_for(net, ids[k], obj_type);
        let ghost before = event_views(r@);
        if !contains_event(&r, &e) {
            r.push(e);
            proof {
                let now = event_views(r@);
                assert(now =~= before.push(event_view(e)));
                assert forall|a: int, b: int| 0 <= a < b < now.len() implies now[a] != now[b] by {
                    if b == before.len() {
                        assert(before.contains(before[a]));
                    }
                }
            }
        }
        proof {
            broadcast use vstd::seq_lib::lemma_seq_contains_after_push;

            let now = event_views(r@);
            assert forall|ev: (Seq<char>, bool, bool)|
                #[trigger] now.contains(ev) <==> exists|q: int| 0 <= q < k + 1 && event_of(*net, #[trigger] ids@[q], obj_type@) == ev by {
                if now.contains(ev) && !before.contains(ev) {
                    assert(event_of(*net, ids@[k as int], obj_type@) == ev);
                }
                if exists|q: int| 0 <= q < k + 1 && event_of(*net, #[trigger] ids@[q], obj_type@) == ev {
                    let q = choose|q: int| 0 <= q < k + 1 && event_of(*net, #[trigger] ids@[q], obj_type@) == ev;
                    if q < k {
                        assert(before.contains(ev));
                    } else {
                        assert(ev == event_view(e));
                    }
                }
            }
        }
        k += 1;
    }
    proof {
        let now = event_views(r@);
        let target = ids@.to_set().map(|id: u128| event_of(*net, id, obj_type@));
        assert(now.to_set() =~= target) by {
            assert forall|ev: (Seq<char>, bool, bool)| now.to_set().contains(ev) <==> target.contains(ev) by {
                if now.contains(ev) {
                    let q = choose|q: int| 0 <= q < k && event_of(*net, #[trigger] ids@[q], obj_type@) == ev;
                    assert(ids@.to_set().contains(ids@[q]));
                }
                if target.contains(ev) {
                    let id = choose|id: u128| ids@.to_set().contains(id) && event_of(*net, id, obj_type@) == ev;
                    let q = choose|q: int| 0 <= q < ids@.len() && ids@[q] == id;
                    assert(event_of(*net, ids@[q], obj_type@) == ev);
                }
            }
        }
    }
    r
}


/// The object types of a result, in its order.
pub open spec fn result_types(r: Seq<(String, Vec<(String, bool, bool)>)>) -> Seq<Seq<char>> {
    r.map_values(|e: (String, Vec<(String, bool, bool)>)| e.0@)
}

/// For each object type of the net's initial places, the events of the transitions that
/// every acyclic walk from an initial place of that type passes. Each event carries the
/// transition's name, whether its event is solo (no input arc of it is variable or comes
/// from a place of another type), and whether it cannot be the first event (some
/// input place is not initial). Each type occurs once, and so does each event of a type.
pub fn compute_must_transitions(net: &ObjectCentricPetriNet) -> (r: Vec<(String, Vec<(String, bool, bool)>)>)
    requires
        must_sources_known(*net),
    ensures
        result_types(r@).no_duplicates(),
        result_types(r@).to_set() == initial_types(*net),
        forall|k: int|
            0 <= k < r@.len() ==> event_views((#[trigger] r@[k]).1@).no_duplicates() && event_views(r@[k].1@).to_set()
                == must_events(*net, r@[k].0@),
        forall|k: int, q: int|
            0 <= k < r@.len() && 0 <= q < r@[k].1@.len() ==> flags_read_off(*net, r@[k].0@, event_view(#[trigger] r@[k].1@[q])),
{
    let types = initial_object_types(net);
    let mut r: Vec<(String, Vec<(String, bool, bool)>)> = Vec::new();
    let mut k: usize = 0;
    while k < types.len()
        invariant
            k <= types@.len(),
            must_sources_known(*net),
            string_views(types@).to_set() == initial_types(*net),
            result_types(r@) == string_views(types@).take(k as int),
            forall|q: int|
                0 <= q < r@.len() ==> event_views((#[trigger] r@[q]).1@).no_duplicates() && event_views(r@[q].1@).to_set()
                    == must_events(*net, r@[q].0@),
        decreases types.len() - k,
    {
        let ty = &types[k];
        let paths = collect_type_paths(net, ty);
        let ids = intersect_paths(&paths);
        proof {
            assert(ids@.to_set() == must_transition_ids(*net, ty@));
            assert(string_views(types@)[k as int] == ty@);
            assert(initial_types(*net).contains(ty@));
            assert forall|q: int| 0 <= q < ids@.len() implies reportable(*net, #[trigger] ids@[q]) by {
                reveal(reportable);
                assert(ids@.to_set().contains(ids@[q]));
                lemma_must_transitions_known(*net, ty@, ids@[q]);
            }
        }
        let evs = events_of(net, ty, &ids);
        let ghost evs_view = event_views(evs@);
        let ghost before = r@;
        r.push((ty.clone(), evs));
        proof {
            assert(r@.len() == before.len() + 1);
            assert(event_views(r@[before.len() as int].1@) == evs_view);
            assert(evs_view.to_set() == must_events(*net, ty@)) by {
                assert(ids@.to_set().map(|id: u128| event_of(*net, id, ty@)) =~= must_events(*net, ty@));
            }
            assert(result_types(r@) =~= result_types(before).push(ty@));
            assert(string_views(types@).take(k + 1) =~= string_views(types@).take(k as int).push(ty@));
        }
        k += 1;
    }
    proof {
        assert(string_views(types@).take(k as int) =~= string_views(types@));
        lemma_result_flags(*net, r@);
    }
    r
}

/// What a reported event `e` of type `ty` says, read off the net directly: it belongs to a
/// transition `t` that every walk of type `ty` passes and carries its name; it is solo
/// exactly when every input arc of `t` is plain and comes from a place of type `ty` (a
/// variable arc, or one from a place of another type, makes it shared); and it cannot be
/// the first event exactly when some input arc of `t` comes from a place that is not
/// initial.
pub open spec fn flags_read_off(net: ObjectCentricPetriNet, ty: Seq<char>, e: (Seq<char>, bool, bool)) -> bool {
    exists|id: u128|
        #![trigger must_transition_ids(net, ty).contains(id)]
        {
            let t = transition_of(net, id);
            let arcs = t.input_arcs@;
            &&& must_transition_ids(net, ty).contains(id)
            &&& e.0 == t.name@
            &&& e.1 == forall|a: int|
                0 <= a < arcs.len() ==> !(#[trigger] arcs[a]).variable && net.place(arcs[a].source_place_id).object_type@
                    == ty
            &&& e.2 == exists|a: int| 0 <= a < arcs.len() && !net.place((#[trigger] arcs[a]).source_place_id).initial
        }
}

/// Every reported event of type `ty` has the flags that its transition gives it directly.
pub proof fn lemma_must_event_flags(net: ObjectCentricPetriNet, ty: Seq<char>, e: (Seq<char>, bool, bool))
    requires
        must_events(net, ty).contains(e),
    ensures
        flags_read_off(net, ty, e),
{
    let id = choose|id: u128| must_transition_ids(net, ty).contains(id) && event_of(net, id, ty) == e;
    reveal(event_of);
    reveal(arc_shares_event);
    reveal(arc_from_initial);
    let t = transition_of(net, id);
    let arcs = t.input_arcs@;
    assert(e.1 == forall|a: int|
        0 <= a < arcs.len() ==> !(#[trigger] arcs[a]).variable && net.place(arcs[a].source_place_id).object_type@ == ty) by {
        if !shared_transition(net, t, ty) {
            assert forall|a: int| 0 <= a < arcs.len() implies !(#[trigger] arcs[a]).variable && net.place(
                arcs[a].source_place_id,
            ).object_type@ == ty by {
                assert(!arc_shares_event(net, arcs[a], ty));
            }
        } else {
            let a = choose|a: int| 0 <= a < arcs.len() && #[trigger] arc_shares_event(net, arcs[a], ty);
            assert(arc_shares_event(net, arcs[a], ty));
        }
    }
    assert(e.2 == exists|a: int| 0 <= a < arcs.len() && !net.place((#[trigger] arcs[a]).source_place_id).initial) by {
        if !can_be_first_event(net, t) {
            let a = choose|a: int| 0 <= a < arcs.len() && !#[trigger] arc_from_initial(net, arcs[a]);
            assert(!net.place(arcs[a].source_place_id).initial);
        } else {
            assert forall|a: int| 0 <= a < arcs.len() implies net.place((#[trigger] arcs[a]).source_place_id).initial by {
                assert(arc_from_initial(net, arcs[a]));
            }
        }
    }
}

/// Every event of a result whose events are the must-events of their types has the flags
/// its transition gives it directly.
proof fn lemma_result_flags(net: ObjectCentricPetriNet, r: Seq<(String, Vec<(String, bool, bool)>)>)
    requires
        forall|k: int|
            0 <= k < r.len() ==> event_views((#[trigger] r[k]).1@).to_set() == must_events(net, r[k].0@),
    ensures
        forall|k: int, q: int|
            0 <= k < r.len() && 0 <= q < r[k].1@.len() ==> flags_read_off(net, r[k].0@, event_view(#[trigger] r[k].1@[q])),
{
    assert forall|k: int, q: int| 0 <= k < r.len() && 0 <= q < r[k].1@.len() implies flags_read_off(
        net,
        r[k].0@,
        event_view(#[trigger] r[k].1@[q]),
    ) by {
        let views = event_views(r[k].1@);
        assert(views[q] == event_view(r[k].1@[q]));
        assert(views.to_set().contains(views[q]));
        lemma_must_event_flags(net, r[k].0@, views[q]);
    }
}

} // verus!
