//! The object-centric Petri net that markings are played on: places typed by
//! object type, transitions, and the arcs between them.
use vstd::prelude::*;

verus! {

/// A place; it holds tokens of objects of one type.
#[derive(Debug, Clone)]
pub struct Place {
    pub id: u128,
    pub name: Option<String>,
    pub object_type: String,
    pub initial: bool,
    pub final_place: bool,
}

/// An arc from a place into a transition. A variable arc consumes any
/// nonempty set of tokens of its place's object type at once.
#[derive(Debug, Clone, Copy, PartialEq, Eq, Structural)]
pub struct InputArc {
    pub source_place_id: u128,
    pub target_transition_id: u128,
    pub variable: bool,
    pub weight: usize,
}

/// An arc from a transition out to a place.
#[derive(Debug, Clone, Copy, PartialEq, Eq, Structural)]
pub struct OutputArc {
    pub source_transition_id: u128,
    pub target_place_id: u128,
    pub variable: bool,
    pub weight: usize,
}

/// A transition with the arcs that lead into it and out of it.
#[derive(Debug, Clone)]
pub struct Transition {
    pub id: u128,
    pub name: String,
    pub label: Option<String>,
    pub silent: bool,
    pub input_arcs: Vec<InputArc>,
    pub output_arcs: Vec<OutputArc>,
}

/// Places and transitions; arcs are kept with the transitions.
#[derive(Debug, Clone)]
pub struct ObjectCentricPetriNet {
    pub places: Vec<Place>,
    pub transitions: Vec<Transition>,
}

/// `Uuid::new_v4`, read as the 128-bit number it holds: a random id.
#[verifier::external_body]
fn new_node_id() -> (id: u128) {
    uuid::Uuid::new_v4().as_u128()
}

/// A copy of an optional name; vstd states that cloning a `String` keeps its text.
fn copy_name(name: &Option<String>) -> (r: Option<String>)
    ensures
        r == *name,
{
    match name {
        Some(s) => Some(s.clone()),
        None => None,
    }
}

impl Place {
    /// A field-by-field copy.
    pub fn copy(&self) -> (r: Place)
        ensures
            r == *self,
    {
        Place {
            id: self.id,
            name: copy_name(&self.name),
            object_type: self.object_type.clone(),
            initial: self.initial,
            final_place: self.final_place,
        }
    }
}

impl Transition {
    /// A field-by-field copy.
    pub fn copy(&self) -> (r: Transition)
        ensures
            r.id == self.id,
            r.name == self.name,
            r.label == self.label,
            r.silent == self.silent,
            r.input_arcs@ == self.input_arcs@,
            r.output_arcs@ == self.output_arcs@,
    {
        let input_arcs = self.input_arcs.clone();
        let output_arcs = self.output_arcs.clone();
        assert(input_arcs@ =~= self.input_arcs@);
        assert(output_arcs@ =~= self.output_arcs@);
        Transition {
            id: self.id,
            name: self.name.clone(),
            label: copy_name(&self.label),
            silent: self.silent,
            input_arcs,
            output_arcs,
        }
    }
}

impl ObjectCentricPetriNet {
    /// Whether some place has id `id`.
    pub open spec fn has_place(&self, id: u128) -> bool {
        exists|i: int| 0 <= i < self.places@.len() && self.places@[i].id == id
    }

    /// The position of the first place with id `id`.
    pub open spec fn place_index(&self, id: u128) -> int {
        choose|i: int|
            0 <= i < self.places@.len() && self.places@[i].id == id && forall|j: int|
                0 <= j < i ==> self.places@[j].id != id
    }

    /// The first place with id `id`; meaningful where `has_place(id)`.
    pub open spec fn place(&self, id: u128) -> Place {
        self.places@[self.place_index(id)]
    }

    pub open spec fn has_transition(&self, id: u128) -> bool {
        exists|i: int| 0 <= i < self.transitions@.len() && self.transitions@[i].id == id
    }

    pub open spec fn transition_index(&self, id: u128) -> int {
        choose|i: int|
            0 <= i < self.transitions@.len() && self.transitions@[i].id == id && forall|j: int|
                0 <= j < i ==> self.transitions@[j].id != id
    }

    pub fn new() -> (net: Self)
        ensures
            net.places@.len() == 0,
            net.transitions@.len() == 0,
    {
        ObjectCentricPetriNet { places: Vec::new(), transitions: Vec::new() }
    }

    /// Adds a place with a fresh random id and returns a copy of it.
    pub fn add_place(
        &mut self,
        name: Option<String>,
        object_type: String,
        initial: bool,
        final_place: bool,
    ) -> (p: Place)
        ensures
            final(self).places@ == old(self).places@.push(p),
            final(self).transitions@ == old(self).transitions@,
            p.name == name,
            p.object_type == object_type,
            p.initial == initial,
            p.final_place == final_place,
    {
        let place = Place { id: new_node_id(), name, object_type, initial, final_place };
        let copy = place.copy();
        self.places.push(place);
        copy
    }

    /// Adds a transition without arcs, with a fresh random id, and returns a copy of it.
    pub fn add_transition(&mut self, name: String, label: Option<String>, silent: bool) -> (t: Transition)
        ensures
            final(self).places@ == old(self).places@,
            final(self).transitions@.len() == old(self).transitions@.len() + 1,
            final(self).transitions@.drop_last() == old(self).transitions@,
            ({
                let added = final(self).transitions@.last();
                &&& added.id == t.id
                &&& added.name == name
                &&& added.label == label
                &&& added.silent == silent
                &&& added.input_arcs@.len() == 0
                &&& added.output_arcs@.len() == 0
            }),
            t.name == name,
            t.label == label,
            t.silent == silent,
            t.input_arcs@.len() == 0,
            t.output_arcs@.len() == 0,
    {
        let t = Transition {
            id: new_node_id(),
            name,
            label,
            silent,
            input_arcs: Vec::new(),
            output_arcs: Vec::new(),
        };
        let copy = t.copy();
        self.transitions.push(t);
        proof {
            assert(self.transitions@.drop_last() =~= old(self).transitions@);
        }
        copy
    }

    /// The position of the first transition with id `id`, if there is one.
    fn find_transition(&self, id: u128) -> (r: Option<usize>)
        ensures
            match r {
                Some(i) => i == self.transition_index(id) && self.has_transition(id) && i < self.transitions@.len()
                    && self.transitions@[i as int].id == id,
                None => !self.has_transition(id),
            },
    {
        let mut i: usize = 0;
        while i < self.transitions.len()
            invariant
                i <= self.transitions@.len(),
                forall|j: int| 0 <= j < i ==> self.transitions@[j].id != id,
            decreases self.transitions.len() - i,
        {
            if self.transitions[i].id == id {
                proof {
                    let k = self.transition_index(id);
                    assert(0 <= k < self.transitions@.len() && self.transitions@[k].id == id && forall|j: int| 0 <= j < k ==> self.transitions@[j].id != id) by {
                        assert(0 <= i < self.transitions@.len() && self.transitions@[i as int].id == id && forall|j: int| 0 <= j < i ==> self.transitions@[j].id != id);
                    }
                    if k < i {
                    } else if k > i {
                        assert(self.transitions@[i as int].id != id);
                    }
                }
                return Some(i);
            }
            i += 1;
        }
        None
    }

    /// Connects place `place_id` to transition `transition_id`. Returns whether the
    /// transition exists; where it does not, the net is left as it is.
    pub fn add_input_arc(
        &mut self,
        place_id: u128,
        transition_id: u128,
        variable: bool,
        weight: usize,
    ) -> (added: bool)
        ensures
            added == old(self).has_transition(transition_id),
            final(self).places@ == old(self).places@,
            final(self).transitions@.len() == old(self).transitions@.len(),
            !added ==> final(self).transitions@ == old(self).transitions@,
            added ==> ({
                let k = old(self).transition_index(transition_id);
                let t = old(self).transitions@[k];
                let u = final(self).transitions@[k];
                &&& forall|j: int|
                    0 <= j < old(self).transitions@.len() && j != k ==> final(self).transitions@[j]
                        == old(self).transitions@[j]
                &&& u.id == t.id && u.name == t.name && u.label == t.label && u.silent == t.silent
                &&& u.output_arcs@ == t.output_arcs@
                &&& u.input_arcs@ == t.input_arcs@.push(
                    InputArc { source_place_id: place_id, target_transition_id: transition_id, variable, weight },
                )
            }),
    {
        match self.find_transition(transition_id) {
            None => false,
            Some(k) => {
                let mut t = self.transitions.remove(k);
                t.input_arcs.push(
                    InputArc { source_place_id: place_id, target_transition_id: transition_id, variable, weight },
                );
                self.transitions.insert(k, t);
                proof {
                    assert forall|j: int|
                        0 <= j < old(self).transitions@.len() && j != k implies self.transitions@[j]
                        == old(self).transitions@[j] by {
                        if j < k {
                        } else {
                        }
                    }
                }
                true
            },
        }
    }

    /// Connects transition `transition_id` to place `place_id`. Returns whether the
    /// transition exists; where it does not, the net is left as it is.
    pub fn add_output_arc(
        &mut self,
        transition_id: u128,
        place_id: u128,
        variable: bool,
        weight: usize,
    ) -> (added: bool)
        ensures
            added == old(self).has_transition(transition_id),
            final(self).places@ == old(self).places@,
            final(self).transitions@.len() == old(self).transitions@.len(),
            !added ==> final(self).transitions@ == old(self).transitions@,
            added ==> ({
                let k = old(self).transition_index(transition_id);
                let t = old(self).transitions@[k];
                let u = final(self).transitions@[k];
                &&& forall|j: int|
                    0 <= j < old(self).transitions@.len() && j != k ==> final(self).transitions@[j]
                        == old(self).transitions@[j]
                &&& u.id == t.id && u.name == t.name && u.label == t.label && u.silent == t.silent
                &&& u.input_arcs@ == t.input_arcs@
                &&& u.output_arcs@ == t.output_arcs@.push(
                    OutputArc { source_transition_id: transition_id, target_place_id: place_id, variable, weight },
                )
            }),
    {
        match self.find_transition(transition_id) {
            None => false,
            Some(k) => {
                let mut t = self.transitions.remove(k);
                t.output_arcs.push(
                    OutputArc { source_transition_id: transition_id, target_place_id: place_id, variable, weight },
                );
                self.transitions.insert(k, t);
                true
            },
        }
    }

    /// The first place with id `id`, if any.
    pub fn get_place(&self, id: &u128) -> (r: Option<&Place>)
        ensures
            match r {
                Some(p) => self.has_place(*id) && *p == self.place(*id),
                None => !self.has_place(*id),
            },
    {
        let mut i: usize = 0;
        while i < self.places.len()
            invariant
                i <= self.places@.len(),
                forall|j: int| 0 <= j < i ==> self.places@[j].id != *id,
            decreases self.places.len() - i,
        {
            if self.places[i].id == *id {
                proof {
                    let k = self.place_index(*id);
                    assert(0 <= k < self.places@.len() && self.places@[k].id == *id && forall|j: int| 0 <= j < k ==> self.places@[j].id != *id) by {
                        assert(0 <= i < self.places@.len() && self.places@[i as int].id == *id && forall|j: int| 0 <= j < i ==> self.places@[j].id != *id);
                    }
                    if k > i {
                        assert(self.places@[i as int].id != *id);
                    }
                }
                return Some(&self.places[i]);
            }
            i += 1;
        }
        None
    }

    /// The first transition with id `id`, if any.
    pub fn get_transition(&self, id: &u128) -> (r: Option<&Transition>)
        ensures
            match r {
                Some(t) => self.has_transition(*id) && *t == self.transitions@[self.transition_index(*id)],
                None => !self.has_transition(*id),
            },
    {
        match self.find_transition(*id) {
            Some(i) => Some(&self.transitions[i]),
            None => None,
        }
    }

    /// The initial places, in the net's order.
    pub fn get_initial_places(&self) -> (r: Vec<&Place>)
        ensures
            r@.map_values(|p: &Place| *p) == self.places@.filter(|p: Place| p.initial),
    {
        let mut r: Vec<&Place> = Vec::new();
        let mut i: usize = 0;
        while i < self.places.len()
            invariant
                i <= self.places@.len(),
                r@.map_values(|p: &Place| *p) == self.places@.take(i as int).filter(|p: Place| p.initial),
            decreases self.places.len() - i,
        {
            let ghost before = r@;
            if self.places[i].initial {
                r.push(&self.places[i]);
            }
            proof {
                let s = self.places@.take(i + 1);
                assert(s.drop_last() =~= self.places@.take(i as int));
                assert(r@.map_values(|p: &Place| *p) =~= s.filter(|p: Place| p.initial)) by {
                    reveal_with_fuel(Seq::filter, 1);
                    if self.places@[i as int].initial {
                        assert(r@ == before.push(&self.places@[i as int]));
                    }
                }
            }
            i += 1;
        }
        assert(self.places@.take(i as int) =~= self.places@);
        r
    }
}

} // verus!
