//! Markings of an object-centric Petri net: which tokens lie in which place,
//! which bindings a transition can fire with, and what firing does.
use crate::bag::{
    bag_clone, bag_contents, bag_count, bag_entries, bag_insert, bag_insert_many, bag_is_empty,
    bag_len, bag_new, bag_remove_up_to, bag_retain_at_least, copies, entries_multiset, entry_tokens,
    lemma_copies_count, lemma_entries_are_contents, lemma_entries_count,
};
use crate::combinatorics::{cartesian_product_iter, lemma_product_contains, lemma_product_nonempty, product_spec};
use crate::petri_net::{InputArc, ObjectCentricPetriNet, OutputArc, Place, Transition};
use hashbag::HashBag;
use std::collections::HashMap;
use std::sync::Arc;
use vstd::multiset::Multiset;
use vstd::prelude::*;
use vstd::std_specs::iter::IteratorSpec;

verus! {

broadcast use vstd::std_specs::hash::group_hash_axioms;

/// A token of an object in a marking, told apart by its id.
#[derive(Debug, Copy, Clone, PartialEq, Eq, Hash, Structural)]
pub struct OCToken {
    pub id: usize,
}

impl OCToken {
    /// A token with the next id of `counter`, which moves on by one. Ids are unique per
    /// counter: each marking keeps its own (copied along with the marking), so tokens of
    /// one marking and of the markings derived from it never share an id, while two
    /// markings made independently both start at id 0.
    pub fn new(counter: &mut usize) -> (t: Self)
        requires
            *old(counter) < usize::MAX,
        ensures
            t.id == *old(counter),
            *final(counter) == *old(counter) + 1,
    {
        let id = *counter;
        *counter = id + 1;
        OCToken { id }
    }
}

/// The tokens of a marking place by place. Tokens are created by the marking's own
/// counter, so a new token never has the id of a token the marking already holds. The
/// counter is not shared between markings made with `new`: each starts at id 0.
pub struct Marking {
    petri_net: Arc<ObjectCentricPetriNet>,
    assignments: HashMap<u128, HashBag<OCToken>>,
    next_token_id: usize,
}

/// The tokens that `m` holds in place `p` (none where `p` has no entry).
pub open spec fn tokens_at(m: Map<u128, Multiset<OCToken>>, p: u128) -> Multiset<OCToken> {
    if m.contains_key(p) {
        m[p]
    } else {
        Multiset::empty()
    }
}

/// One token each with the ids `start`, ..., `start + n - 1`.
pub open spec fn fresh_tokens(start: nat, n: nat) -> Multiset<OCToken>
    decreases n,
{
    if n == 0 {
        Multiset::empty()
    } else {
        fresh_tokens(start, (n - 1) as nat).insert(OCToken { id: (start + n - 1) as usize })
    }
}

/// The ids `start`, ..., `start + n - 1`.
pub open spec fn id_range(start: nat, n: nat) -> Seq<usize> {
    Seq::new(n, |i: int| (start + i) as usize)
}

/// A token counter at `bound` has passed every token that `tokens` holds: each has an id
/// below `bound`, unless the counter has stopped at `usize::MAX`.
pub open spec fn ids_below(tokens: Multiset<OCToken>, bound: nat) -> bool {
    forall|t: OCToken| #[trigger] tokens.count(t) > 0 ==> t.id < bound || bound >= usize::MAX
}

/// Where the counter goes on seeing a token with id `id`: one past it, stopping at `usize::MAX`.
pub open spec fn bump(id: usize) -> nat {
    if id < usize::MAX {
        (id + 1) as nat
    } else {
        usize::MAX as nat
    }
}

/// The counter moved past the tokens `added`: it is at least `before`, has passed every id
/// in `added`, and equals `before` or `bump` of such an id (so it is the least such value).
pub open spec fn counter_passes(before: nat, after: nat, added: Multiset<OCToken>) -> bool {
    &&& before <= after
    &&& ids_below(added, after)
    &&& (after == before || exists|t: OCToken| added.count(t) > 0 && after == bump(t.id))
}

/// The fresh tokens from `start` on hold each id `start`, ..., `start + n - 1` once.
pub proof fn lemma_fresh_tokens_count(start: nat, n: nat, t: OCToken)
    requires
        start + n <= usize::MAX,
    ensures
        fresh_tokens(start, n).count(t) == if start <= t.id < start + n { 1nat } else { 0nat },
        fresh_tokens(start, n).len() == n,
    decreases n,
{
    broadcast use vstd::multiset::group_multiset_axioms;

    if n > 0 {
        lemma_fresh_tokens_count(start, (n - 1) as nat, t);
    }
}

/// `Arc::clone`: another handle to the same net.
#[verifier::external_body]
fn share_net(net: &Arc<ObjectCentricPetriNet>) -> (r: Arc<ObjectCentricPetriNet>)
    ensures
        *r == **net,
{
    Arc::clone(net)
}

impl Marking {
    /// The net the marking belongs to.
    pub closed spec fn net(&self) -> ObjectCentricPetriNet {
        *self.petri_net
    }

    /// The tokens of each place that has an entry.
    pub closed spec fn tokens(&self) -> Map<u128, Multiset<OCToken>> {
        Map::new(
            |p: u128| self.assignments@.contains_key(p),
            |p: u128| bag_contents(self.assignments@[p]),
        )
    }

    /// The id the next new token gets.
    pub closed spec fn next_id(&self) -> nat {
        self.next_token_id as nat
    }

    /// Every token held has an id the counter has already passed.
    pub closed spec fn wf(&self) -> bool {
        forall|p: u128| #[trigger]
            self.assignments@.contains_key(p) ==> ids_below(bag_contents(self.assignments@[p]), self.next_token_id as nat)
    }

    /// The tokens a well-formed marking holds all have ids below its counter (unless the
    /// counter has stopped at `usize::MAX`, where it hands out no more ids), so the ids it
    /// hands out next, from the counter on, belong to no token it holds.
    pub proof fn lemma_next_ids_unused(&self, p: u128, t: OCToken)
        requires
            self.wf(),
            tokens_at(self.tokens(), p).count(t) > 0,
        ensures
            t.id < self.next_id() || self.next_id() >= usize::MAX,
    {
    }

    /// A copy of the marking: the same net, tokens and counter.
    pub fn copy(&self) -> (r: Marking)
        ensures
            r.net() == self.net(),
            r.tokens() == self.tokens(),
            r.next_id() == self.next_id(),
            r.wf() == self.wf(),
    {
        let ghost pairs = vstd::std_specs::hash::spec_hash_map_iter(&self.assignments).remaining();
        proof {
            vstd::std_specs::hash::axiom_spec_hash_map_iter(&self.assignments);
        }
        let mut assignments: HashMap<u128, HashBag<OCToken>> = HashMap::new();
        for entry in it: self.assignments.iter()
            invariant
                it.seq() == pairs,
                forall|i: int|
                    #![trigger pairs[i]]
                    0 <= i < pairs.len() ==> self.assignments@.contains_key(*pairs[i].0)
                        && self.assignments@[*pairs[i].0] == *pairs[i].1,
                forall|p: u128|
                    #[trigger] assignments@.contains_key(p) <==> exists|j: int|
                        0 <= j < it.index() && *(#[trigger] pairs[j]).0 == p,
                forall|p: u128|
                    #[trigger] assignments@.contains_key(p) ==> bag_contents(assignments@[p]) == bag_contents(
                        self.assignments@[p],
                    ),
        {
            let (place_id, bag) = entry;
            let copy = bag_clone(bag);
            let ghost idx = it.index();
            assignments.insert(*place_id, copy);
            proof {
                assert forall|p: u128| #[trigger] assignments@.contains_key(p) <==> exists|j: int|
                    0 <= j < idx + 1 && *(#[trigger] pairs[j]).0 == p by {
                    if p == *place_id {
                        assert(*pairs[idx].0 == p);
                    }
                }
            }
        }
        let r = Marking { petri_net: share_net(&self.petri_net), assignments, next_token_id: self.next_token_id };
        proof {
            assert forall|p: u128| r.assignments@.contains_key(p) <==> self.assignments@.contains_key(p) by {
                if self.assignments@.contains_key(p) {
                    let v = self.assignments@[p];
                    assert(pairs.contains((&p, &v)));
                    let j = choose|j: int| 0 <= j < pairs.len() && pairs[j] == (&p, &v);
                    assert(*pairs[j].0 == p);
                }
                if r.assignments@.contains_key(p) {
                    let j = choose|j: int| 0 <= j < pairs.len() && *(#[trigger] pairs[j]).0 == p;
                    assert(self.assignments@.contains_key(*pairs[j].0));
                }
            }
            assert(r.tokens() =~= self.tokens());
        }
        r
    }

    /// An empty marking of `petri_net`.
    pub fn new(petri_net: ObjectCentricPetriNet) -> (m: Self)
        ensures
            m.wf(),
            m.net() == petri_net,
            m.tokens() == Map::<u128, Multiset<OCToken>>::empty(),
            m.next_id() == 0,
    {
        let m = Marking { petri_net: Arc::new(petri_net), assignments: HashMap::new(), next_token_id: 0 };
        assert(m.tokens() =~= Map::<u128, Multiset<OCToken>>::empty());
        m
    }

    /// Takes the bag of `place_id` out of the map (an empty bag where there is none).
    fn take_bag(&mut self, place_id: &u128) -> (bag: HashBag<OCToken>)
        ensures
            final(self).petri_net == old(self).petri_net,
            final(self).next_token_id == old(self).next_token_id,
            final(self).assignments@ == old(self).assignments@.remove(*place_id),
            bag_contents(bag) == tokens_at(old(self).tokens(), *place_id),
    {
        match self.assignments.remove(place_id) {
            Some(b) => b,
            None => bag_new(),
        }
    }

    /// How many tokens place `place_id` holds (all occurrences counted).
    pub fn token_count_at(&self, place_id: &u128) -> (r: usize)
        ensures
            r == tokens_at(self.tokens(), *place_id).len(),
    {
        match self.assignments.get(place_id) {
            Some(b) => bag_len(b),
            None => {
                proof {
                    broadcast use vstd::multiset::group_multiset_axioms;
                }
                0
            },
        }
    }

    /// Creates `count` new tokens in the initial place `place_id`; returns their ids.
    pub fn add_initial_token_count(&mut self, place_id: &u128, count: usize) -> (ids: Vec<usize>)
        requires
            old(self).wf(),
            old(self).net().has_place(*place_id),
            old(self).net().place(*place_id).initial,
            old(self).next_id() + count <= usize::MAX,
            tokens_at(old(self).tokens(), *place_id).len() + count <= usize::MAX,
        ensures
            final(self).wf(),
            final(self).net() == old(self).net(),
            ids@ == id_range(old(self).next_id(), count as nat),
            final(self).next_id() == old(self).next_id() + count,
            final(self).tokens() == old(self).tokens().insert(
                *place_id,
                tokens_at(old(self).tokens(), *place_id).add(fresh_tokens(old(self).next_id(), count as nat)),
            ),
    {
        broadcast use vstd::multiset::group_multiset_axioms;

        let ghost start = self.next_token_id as nat;
        let ghost old_tokens = self.tokens();
        let ghost old_assignments = self.assignments@;
        let mut bag = self.take_bag(place_id);
        let mut token_ids: Vec<usize> = Vec::new();
        let mut i: usize = 0;
        while i < count
            invariant
                i <= count,
                start + count <= usize::MAX,
                self.assignments@ == old_assignments.remove(*place_id),
                self.petri_net == old(self).petri_net,
                self.next_token_id == start + i,
                token_ids@ == id_range(start, i as nat),
                bag_contents(bag) == tokens_at(old_tokens, *place_id).add(fresh_tokens(start, i as nat)),
                tokens_at(old_tokens, *place_id).len() + count <= usize::MAX,
                ids_below(tokens_at(old_tokens, *place_id), start),
            decreases count - i,
        {
            proof {
                lemma_fresh_tokens_count(start, i as nat, OCToken { id: 0 });
                assert(bag_contents(bag).len() == tokens_at(old_tokens, *place_id).len() + i);
            }
            let token = OCToken::new(&mut self.next_token_id);
            token_ids.push(token.id);
            bag_insert(&mut bag, token);
            proof {
                assert(token_ids@ =~= id_range(start, (i + 1) as nat));
                assert(bag_contents(bag) =~= tokens_at(old_tokens, *place_id).add(fresh_tokens(start, (i + 1) as nat)));
            }
            i += 1;
        }
        proof {
            assert forall|t: OCToken| #[trigger] bag_contents(bag).count(t) > 0 implies t.id < self.next_token_id || self.next_token_id >= usize::MAX by {
                lemma_fresh_tokens_count(start, count as nat, t);
            }
        }
        let ghost new_contents = bag_contents(bag);
        self.assignments.insert(*place_id, bag);
        proof {
            assert(self.assignments@ == old_assignments.remove(*place_id).insert(*place_id, bag));
            assert(self.tokens() =~= old_tokens.insert(*place_id, new_contents));
            assert forall|p: u128| #[trigger] self.assignments@.contains_key(p) implies ids_below(
                bag_contents(self.assignments@[p]),
                self.next_token_id as nat,
            ) by {
                if p != *place_id {
                    assert(old(self).assignments@.contains_key(p));
                    assert(ids_below(bag_contents(old(self).assignments@[p]), start));
                }
            }
        }
        token_ids
    }

    /// Adds the tokens of `tokens` to the initial place `place_id`.
    pub fn add_initial_tokens(&mut self, place_id: &u128, tokens: &HashBag<OCToken>)
        requires
            old(self).wf(),
            old(self).net().has_place(*place_id),
            old(self).net().place(*place_id).initial,
            tokens_at(old(self).tokens(), *place_id).len() + bag_contents(*tokens).len() <= usize::MAX,
        ensures
            final(self).wf(),
            final(self).net() == old(self).net(),
            final(self).tokens() == old(self).tokens().insert(
                *place_id,
                tokens_at(old(self).tokens(), *place_id).add(bag_contents(*tokens)),
            ),
            counter_passes(old(self).next_id(), final(self).next_id(), bag_contents(*tokens)),
    {
        self._add_all_tokens_unsafe(place_id, tokens);
    }

    /// Adds the tokens of `tokens` to place `place_id`, whatever place it is.
    pub fn _add_all_tokens_unsafe(&mut self, place_id: &u128, tokens: &HashBag<OCToken>)
        requires
            old(self).wf(),
            tokens_at(old(self).tokens(), *place_id).len() + bag_contents(*tokens).len() <= usize::MAX,
        ensures
            final(self).wf(),
            final(self).net() == old(self).net(),
            final(self).tokens() == old(self).tokens().insert(
                *place_id,
                tokens_at(old(self).tokens(), *place_id).add(bag_contents(*tokens)),
            ),
            counter_passes(old(self).next_id(), final(self).next_id(), bag_contents(*tokens)),
    {
        broadcast use vstd::multiset::group_multiset_axioms;

        let ghost old_tokens = self.tokens();
        let ghost old_assignments = self.assignments@;
        let ghost start = self.next_token_id as nat;
        let ghost added = bag_contents(*tokens);
        let mut bag = self.take_bag(place_id);
        let entries = bag_entries(tokens);
        proof {
            lemma_entries_are_contents(entries@, added);
        }
        let mut i: usize = 0;
        while i < entries.len()
            invariant
                i <= entries.len(),
                entries_multiset(entries@) == added,
                entry_tokens(entries@).no_duplicates(),
                self.assignments@ == old_assignments.remove(*place_id),
                self.petri_net == old(self).petri_net,
                bag_contents(bag) == tokens_at(old_tokens, *place_id).add(entries_multiset(entries@.take(i as int))),
                tokens_at(old_tokens, *place_id).len() + added.len() <= usize::MAX,
                ids_below(tokens_at(old_tokens, *place_id), start),
                counter_passes(start, self.next_token_id as nat, entries_multiset(entries@.take(i as int))),
            decreases entries.len() - i,
        {
            let (token, count) = entries[i];
            proof {
                let pre = entries@.take(i as int);
                assert(entries@.take(i + 1).drop_last() =~= pre);
                assert(entries@.take(i + 1).last() == entries@[i as int]);
                lemma_entries_prefix_len(entries@, i as int + 1);
                lemma_copies_count(token, count as nat, token);
                assert(entries_multiset(entries@.take(i + 1)) == entries_multiset(pre).add(copies(token, count as nat)));
                assert(entries_multiset(entries@.take(i + 1)).len() == entries_multiset(pre).len() + count);
                assert(bag_contents(bag).len() == tokens_at(old_tokens, *place_id).len() + entries_multiset(pre).len());
                assert(count > 0 ==> added.count(token) > 0) by {
                    lemma_entries_prefix_len(entries@, i as int + 1);
                    assert(entries_multiset(entries@.take(i + 1)).count(token) >= count);
                    lemma_entries_sub(entries@, i as int + 1);
                }
            }
            bag_insert_many(&mut bag, token, count);
            let ghost prev_next = self.next_token_id;
            if count > 0 && token.id >= self.next_token_id {
                self.next_token_id = if token.id < usize::MAX { token.id + 1 } else { usize::MAX };
            }
            proof {
                let now = entries_multiset(entries@.take(i + 1));
                assert(now == entries_multiset(entries@.take(i as int)).add(copies(token, count as nat)));
                assert forall|t: OCToken| #[trigger] now.count(t) > 0 implies t.id < self.next_token_id || self.next_token_id >= usize::MAX by {
                    lemma_copies_count(token, count as nat, t);
                }
                if self.next_token_id as nat != start {
                    if self.next_token_id != prev_next {
                        assert(now.count(token) > 0);
                    } else {
                        let w = choose|w: OCToken| entries_multiset(entries@.take(i as int)).count(w) > 0 && self.next_token_id == bump(w.id);
                        assert(now.count(w) > 0);
                    }
                }
            }
            i += 1;
        }
        proof {
            assert(entries@.take(i as int) =~= entries@);
        }
        let ghost new_contents = bag_contents(bag);
        self.assignments.insert(*place_id, bag);
        proof {
            assert(self.assignments@ == old_assignments.remove(*place_id).insert(*place_id, bag));
            assert(self.tokens() =~= old_tokens.insert(*place_id, new_contents));
            assert forall|p: u128| #[trigger] self.assignments@.contains_key(p) implies ids_below(
                bag_contents(self.assignments@[p]),
                self.next_token_id as nat,
            ) by {
                if p != *place_id {
                    assert(old(self).assignments@.contains_key(p));
                    assert(ids_below(bag_contents(old(self).assignments@[p]), start));
                } else {
                    assert forall|t: OCToken| #[trigger] new_contents.count(t) > 0 implies t.id < self.next_token_id || self.next_token_id >= usize::MAX by {
                        if tokens_at(old_tokens, *place_id).count(t) > 0 {
                        } else {
                            assert(added.count(t) > 0);
                        }
                    }
                }
            }
        }
    }

    /// Adds `token` to place `place_id`, whatever place it is.
    pub fn add_token_unsafe(&mut self, place_id: u128, token: OCToken)
        requires
            old(self).wf(),
            tokens_at(old(self).tokens(), place_id).len() < usize::MAX,
        ensures
            final(self).wf(),
            final(self).net() == old(self).net(),
            final(self).tokens() == old(self).tokens().insert(
                place_id,
                tokens_at(old(self).tokens(), place_id).insert(token),
            ),
            counter_passes(old(self).next_id(), final(self).next_id(), Multiset::singleton(token)),
    {
        broadcast use vstd::multiset::group_multiset_axioms;

        let ghost old_tokens = self.tokens();
        let ghost old_assignments = self.assignments@;
        let mut bag = self.take_bag(&place_id);
        bag_insert(&mut bag, token);
        if token.id >= self.next_token_id {
            self.next_token_id = if token.id < usize::MAX { token.id + 1 } else { usize::MAX };
        }
        let ghost new_contents = bag_contents(bag);
        self.assignments.insert(place_id, bag);
        proof {
            assert(self.assignments@ == old_assignments.remove(place_id).insert(place_id, bag));
            assert(self.tokens() =~= old_tokens.insert(place_id, new_contents));
            assert forall|p: u128| #[trigger] self.assignments@.contains_key(p) implies ids_below(
                bag_contents(self.assignments@[p]),
                self.next_token_id as nat,
            ) by {
                if p != place_id {
                    assert(old(self).assignments@.contains_key(p));
                    assert(ids_below(bag_contents(old(self).assignments@[p]), old(self).next_token_id as nat));
                } else {
                    assert forall|t: OCToken| #[trigger] new_contents.count(t) > 0 implies t.id < self.next_token_id || self.next_token_id >= usize::MAX by {
                        if t != token {
                            assert(tokens_at(old_tokens, place_id).count(t) > 0);
                        }
                    }
                }
            }
            if self.next_token_id != old(self).next_token_id {
                assert(Multiset::singleton(token).count(token) > 0);
            }
        }
    }
}

/// How many tokens `bag` holds (all occurrences counted).
pub fn bag_size(bag: &HashBag<OCToken>) -> (r: usize)
    ensures
        r == bag_contents(*bag).len(),
{
    bag_len(bag)
}

/// A bag holding the tokens of `tokens`, each as often as it occurs there.
pub fn bag_from_tokens(tokens: &Vec<OCToken>) -> (b: HashBag<OCToken>)
    ensures
        bag_contents(b) == tokens@.to_multiset(),
{
    broadcast use vstd::seq_lib::group_to_multiset_ensures;

    let mut b = bag_new();
    let mut i: usize = 0;
    proof {
        assert(tokens@.take(0) =~= Seq::<OCToken>::empty());
        vstd::multiset::lemma_multiset_empty_len(tokens@.take(0).to_multiset());
        assert(tokens@.take(0).to_multiset() =~= Multiset::<OCToken>::empty());
    }
    while i < tokens.len()
        invariant
            i <= tokens@.len(),
            bag_contents(b) == tokens@.take(i as int).to_multiset(),
        decreases tokens.len() - i,
    {
        proof {
            tokens@.take(i as int).to_multiset_ensures();
            assert(tokens@.take(i + 1) =~= tokens@.take(i as int).push(tokens@[i as int]));
        }
        bag_insert(&mut b, tokens[i]);
        i += 1;
    }
    proof {
        assert(tokens@.take(i as int) =~= tokens@);
    }
    b
}

/// The tokens one firing takes out of one input place: `count` occurrences of each
/// distinct token of `consumed`.
pub struct PlaceBinding {
    pub place_id: u128,
    pub consumed: Vec<OCToken>,
    pub count: usize,
}

/// The tokens of one object type that a firing binds, and what it takes from
/// each input place of that type.
pub struct ObjectBindingInfo {
    pub object_type: String,
    pub tokens: Vec<OCToken>,
    pub place_bindings: Vec<PlaceBinding>,
}

/// A way to fire a transition: one entry per object type of its input places, each type
/// once (`types_distinct`; the bindings that are found have it, see
/// `lemma_bindings_types_distinct`, and firing asks for it).
pub struct Binding {
    pub transition_id: u128,
    pub object_binding_info: Vec<ObjectBindingInfo>,
}

pub struct PlaceBindingView {
    pub place_id: u128,
    pub consumed: Seq<OCToken>,
    pub count: usize,
}

pub struct ObjectBindingInfoView {
    pub object_type: Seq<char>,
    pub tokens: Seq<OCToken>,
    pub place_bindings: Seq<PlaceBindingView>,
}

pub struct BindingView {
    pub transition_id: u128,
    pub infos: Seq<ObjectBindingInfoView>,
}

impl View for PlaceBinding {
    type V = PlaceBindingView;

    open spec fn view(&self) -> PlaceBindingView {
        PlaceBindingView { place_id: self.place_id, consumed: self.consumed@, count: self.count }
    }
}

impl View for ObjectBindingInfo {
    type V = ObjectBindingInfoView;

    open spec fn view(&self) -> ObjectBindingInfoView {
        ObjectBindingInfoView {
            object_type: self.object_type@,
            tokens: self.tokens@,
            place_bindings: self.place_bindings@.map_values(|pb: PlaceBinding| pb@),
        }
    }
}

impl View for Binding {
    type V = BindingView;

    open spec fn view(&self) -> BindingView {
        BindingView {
            transition_id: self.transition_id,
            infos: self.object_binding_info@.map_values(|i: ObjectBindingInfo| i@),
        }
    }
}

impl Clone for PlaceBinding {
    fn clone(&self) -> (r: Self)
        ensures
            r@ == self@,
    {
        let consumed = self.consumed.clone();
        assert(consumed@ =~= self.consumed@);
        PlaceBinding { place_id: self.place_id, consumed, count: self.count }
    }
}

impl Clone for ObjectBindingInfo {
    fn clone(&self) -> (r: Self)
        ensures
            r@ == self@,
    {
        let tokens = self.tokens.clone();
        assert(tokens@ =~= self.tokens@);
        let place_bindings = self.place_bindings.clone();
        assert(place_bindings@.map_values(|pb: PlaceBinding| pb@) =~= self.place_bindings@.map_values(
            |pb: PlaceBinding| pb@,
        )) by {
            assert forall|i: int| 0 <= i < place_bindings@.len() implies place_bindings@[i]@
                == self.place_bindings@[i]@ by {
                assert(cloned::<PlaceBinding>(self.place_bindings@[i], place_bindings@[i]));
            }
        }
        ObjectBindingInfo { object_type: self.object_type.clone(), tokens, place_bindings }
    }
}

impl Clone for Binding {
    fn clone(&self) -> (r: Self)
        ensures
            r@ == self@,
    {
        let infos = self.object_binding_info.clone();
        assert(infos@.map_values(|i: ObjectBindingInfo| i@) =~= self.object_binding_info@.map_values(
            |i: ObjectBindingInfo| i@,
        )) by {
            assert forall|k: int| 0 <= k < infos@.len() implies infos@[k]@ == self.object_binding_info@[k]@ by {
                assert(cloned::<ObjectBindingInfo>(self.object_binding_info@[k], infos@[k]));
            }
        }
        Binding { transition_id: self.transition_id, object_binding_info: infos }
    }
}

/// No two entries of a binding are of the same object type: a binding has at most one
/// entry per type.
pub open spec fn types_distinct(infos: Seq<ObjectBindingInfoView>) -> bool {
    forall|i: int, j: int| 0 <= i < j < infos.len() ==> (#[trigger] infos[i]).object_type != (#[trigger] infos[j]).object_type
}

impl Binding {
    /// A binding of transition `transition_id` from one entry per object type.
    fn from_combinations(transition_id: u128, combinations: Vec<ObjectBindingInfo>) -> (b: Self)
        requires
            types_distinct(combinations@.map_values(|i: ObjectBindingInfo| i@)),
        ensures
            b@ == (BindingView {
                transition_id,
                infos: combinations@.map_values(|i: ObjectBindingInfo| i@),
            }),
    {
        Binding { transition_id, object_binding_info: combinations }
    }
}

/// `q` occurrences of each distinct token of `ts`.
pub open spec fn repeat_tokens(ts: Seq<OCToken>, q: usize) -> Multiset<OCToken>
    decreases ts.len(),
{
    if ts.len() == 0 {
        Multiset::empty()
    } else if ts.drop_last().contains(ts.last()) {
        repeat_tokens(ts.drop_last(), q)
    } else {
        repeat_tokens(ts.drop_last(), q).add(copies(ts.last(), q as nat))
    }
}

/// What the place bindings `pbs` take out of place `p`.
pub open spec fn place_bindings_removal(pbs: Seq<PlaceBindingView>, p: u128) -> Multiset<OCToken>
    decreases pbs.len(),
{
    if pbs.len() == 0 {
        Multiset::empty()
    } else {
        let pb = pbs.last();
        place_bindings_removal(pbs.drop_last(), p).add(
            if pb.place_id == p { repeat_tokens(pb.consumed, pb.count) } else { Multiset::empty() },
        )
    }
}

/// What a binding with entries `infos` takes out of place `p`.
pub open spec fn binding_removal(infos: Seq<ObjectBindingInfoView>, p: u128) -> Multiset<OCToken>
    decreases infos.len(),
{
    if infos.len() == 0 {
        Multiset::empty()
    } else {
        binding_removal(infos.drop_last(), p).add(place_bindings_removal(infos.last().place_bindings, p))
    }
}

/// The tokens a binding with entries `infos` binds, all object types together.
pub open spec fn binding_tokens(infos: Seq<ObjectBindingInfoView>) -> Multiset<OCToken>
    decreases infos.len(),
{
    if infos.len() == 0 {
        Multiset::empty()
    } else {
        binding_tokens(infos.drop_last()).add(infos.last().tokens.to_multiset())
    }
}

/// How many of `arcs` lead into place `p`.
pub open spec fn arcs_into(arcs: Seq<OutputArc>, p: u128) -> nat
    decreases arcs.len(),
{
    if arcs.len() == 0 {
        0
    } else {
        arcs_into(arcs.drop_last(), p) + if arcs.last().target_place_id == p { 1nat } else { 0nat }
    }
}

/// `n` times the tokens of `m`.
pub open spec fn times(m: Multiset<OCToken>, n: nat) -> Multiset<OCToken>
    decreases n,
{
    if n == 0 {
        Multiset::empty()
    } else {
        times(m, (n - 1) as nat).add(m)
    }
}

/// Whether some arc of `arcs` leads into place `p`.
pub open spec fn is_target(arcs: Seq<OutputArc>, p: u128) -> bool {
    exists|i: int| 0 <= i < arcs.len() && arcs[i].target_place_id == p
}

/// The tokens after firing transition `t` with binding `b` on tokens `m`: every place
/// loses what the binding takes from it (never going below zero) and then every output
/// arc of `t` puts all bound tokens into its place.
pub open spec fn fired(m: Map<u128, Multiset<OCToken>>, t: Transition, b: BindingView) -> Map<u128, Multiset<OCToken>> {
    Map::new(
        |p: u128| m.contains_key(p) || is_target(t.output_arcs@, p),
        |p: u128|
            tokens_at(m, p).sub(binding_removal(b.infos, p)).add(
                times(binding_tokens(b.infos), arcs_into(t.output_arcs@, p)),
            ),
    )
}

/// Every place binding of `b` names a place that has an entry in `m`.
pub open spec fn binding_places_present(m: Map<u128, Multiset<OCToken>>, b: BindingView) -> bool {
    forall|i: int, j: int|
        0 <= i < b.infos.len() && 0 <= j < b.infos[i].place_bindings.len() ==> m.contains_key(
            #[trigger] b.infos[i].place_bindings[j].place_id,
        )
}

/// Every place of `m` and every output place of `t` can take what firing `t` with `b` adds.
pub open spec fn fire_fits(m: Map<u128, Multiset<OCToken>>, t: Transition, b: BindingView) -> bool {
    forall|p: u128|
        #[trigger] tokens_at(m, p).len() + times(binding_tokens(b.infos), arcs_into(t.output_arcs@, p)).len()
            <= usize::MAX
}

proof fn lemma_sub_sub(m: Multiset<OCToken>, a: Multiset<OCToken>, b: Multiset<OCToken>)
    ensures
        m.sub(a).sub(b) == m.sub(a.add(b)),
{
    broadcast use vstd::multiset::group_multiset_axioms;

    assert(m.sub(a).sub(b) =~= m.sub(a.add(b)));
}

/// Takes `pb.count` occurrences of each consumed token out of `bag`.
/// Whether `x` is among the first `i` tokens of `v`.
fn occurs_before(v: &Vec<OCToken>, i: usize, x: OCToken) -> (r: bool)
    requires
        i <= v@.len(),
    ensures
        r == v@.take(i as int).contains(x),
{
    let mut j: usize = 0;
    while j < i
        invariant
            j <= i <= v@.len(),
            forall|q: int| 0 <= q < j ==> v@[q] != x,
        decreases i - j,
    {
        if v[j] == x {
            proof {
                assert(v@.take(i as int)[j as int] == x);
            }
            return true;
        }
        j += 1;
    }
    proof {
        assert forall|q: int| 0 <= q < v@.take(i as int).len() implies v@.take(i as int)[q] != x by {
            assert(v@.take(i as int)[q] == v@[q]);
        }
    }
    false
}

fn remove_consumed(bag: &mut HashBag<OCToken>, pb: &PlaceBinding)
    ensures
        bag_contents(*final(bag)) == bag_contents(*old(bag)).sub(repeat_tokens(pb.consumed@, pb.count)),
{
    broadcast use vstd::multiset::group_multiset_axioms;

    let ghost start = bag_contents(*bag);
    let mut i: usize = 0;
    assert(start.sub(repeat_tokens(pb.consumed@.take(0), pb.count)) =~= start);
    while i < pb.consumed.len()
        invariant
            i <= pb.consumed.len(),
            bag_contents(*bag) == start.sub(repeat_tokens(pb.consumed@.take(i as int), pb.count)),
        decreases pb.consumed.len() - i,
    {
        let token = pb.consumed[i];
        proof {
            assert(pb.consumed@.take(i + 1).drop_last() =~= pb.consumed@.take(i as int));
            assert(pb.consumed@.take(i + 1).last() == token);
        }
        if !occurs_before(&pb.consumed, i, token) {
            bag_remove_up_to(bag, &token, pb.count);
            proof {
                lemma_sub_sub(start, repeat_tokens(pb.consumed@.take(i as int), pb.count), copies(token, pb.count as nat));
            }
        }
        i += 1;
    }
    assert(pb.consumed@.take(i as int) =~= pb.consumed@);
}

/// Puts every token bound by `infos` into `bag`.
fn insert_bound(bag: &mut HashBag<OCToken>, infos: &Vec<ObjectBindingInfo>)
    requires
        bag_contents(*old(bag)).len() + binding_tokens(infos@.map_values(|i: ObjectBindingInfo| i@)).len() <= usize::MAX,
    ensures
        bag_contents(*final(bag)) == bag_contents(*old(bag)).add(binding_tokens(infos@.map_values(|i: ObjectBindingInfo| i@))),
{
    broadcast use vstd::multiset::group_multiset_axioms;
    broadcast use vstd::seq_lib::group_to_multiset_ensures;

    let ghost start = bag_contents(*bag);
    let ghost views = infos@.map_values(|i: ObjectBindingInfo| i@);
    let mut a: usize = 0;
    assert(views.take(0).len() == 0);
    while a < infos.len()
        invariant
            a <= infos.len(),
            views == infos@.map_values(|i: ObjectBindingInfo| i@),
            start.len() + binding_tokens(views).len() <= usize::MAX,
            bag_contents(*bag) == start.add(binding_tokens(views.take(a as int))),
        decreases infos.len() - a,
    {
        let info = &infos[a];
        let ghost base = bag_contents(*bag);
        proof {
            assert(views.take(a + 1).drop_last() =~= views.take(a as int));
            lemma_binding_tokens_prefix_len(views, a as int + 1);
        }
        let mut b: usize = 0;
        proof {
            let e = info.tokens@.take(0);
            e.to_multiset_ensures();
            vstd::multiset::lemma_multiset_empty_len(e.to_multiset());
            assert(base.add(e.to_multiset()) =~= base);
        }
        while b < info.tokens.len()
            invariant
                a < infos.len(),
                info == &infos[a as int],
                b <= info.tokens.len(),
                base.len() + info.tokens@.len() <= usize::MAX,
                bag_contents(*bag) == base.add(info.tokens@.take(b as int).to_multiset()),
            decreases info.tokens.len() - b,
        {
            proof {
                info.tokens@.take(b as int).to_multiset_ensures();
                assert(info.tokens@.take(b as int).to_multiset().len() == b);
            }
            bag_insert(bag, info.tokens[b]);
            proof {
                assert(info.tokens@.take(b + 1) =~= info.tokens@.take(b as int).push(info.tokens@[b as int]));
                assert(info.tokens@.take(b as int).push(info.tokens@[b as int]).to_multiset() =~= info.tokens@.take(b as int).to_multiset().insert(info.tokens@[b as int]));
                assert(bag_contents(*bag) =~= base.add(info.tokens@.take(b + 1).to_multiset()));
            }
            b += 1;
        }
        proof {
            assert(info.tokens@.take(b as int) =~= info.tokens@);
            assert(views[a as int].tokens == info.tokens@);
            assert(bag_contents(*bag) =~= start.add(binding_tokens(views.take(a + 1))));
        }
        a += 1;
    }
    assert(views.take(a as int) =~= views);
}

proof fn lemma_sub_len_le(m: Multiset<OCToken>, x: Multiset<OCToken>)
    ensures
        m.sub(x).len() <= m.len(),
{
    broadcast use vstd::multiset::group_multiset_axioms;

    let y = m.sub(m.sub(x));
    assert(y.subset_of(m));
    assert(m.sub(y) =~= m.sub(x));
}

proof fn lemma_times_len_mono(m: Multiset<OCToken>, k: nat, n: nat)
    requires
        k <= n,
    ensures
        times(m, k).len() <= times(m, n).len(),
    decreases n - k,
{
    broadcast use vstd::multiset::group_multiset_axioms;

    if k < n {
        lemma_times_len_mono(m, k, (n - 1) as nat);
    }
}

proof fn lemma_arcs_into_prefix(arcs: Seq<OutputArc>, c: int, p: u128)
    requires
        0 <= c <= arcs.len(),
    ensures
        arcs_into(arcs.take(c), p) <= arcs_into(arcs, p),
        c < arcs.len() ==> arcs_into(arcs.take(c + 1), p) == arcs_into(arcs.take(c), p) + if arcs[c].target_place_id
            == p { 1nat } else { 0nat },
        arcs_into(arcs.take(c), p) > 0 ==> is_target(arcs.take(c), p),
    decreases arcs.len() - c,
{
    if c < arcs.len() {
        assert(arcs.take(c + 1).drop_last() =~= arcs.take(c));
        lemma_arcs_into_prefix(arcs, c + 1, p);
    } else {
        assert(arcs.take(c) =~= arcs);
    }
    lemma_arcs_into_target(arcs.take(c), p);
}

proof fn lemma_arcs_into_target(arcs: Seq<OutputArc>, p: u128)
    ensures
        arcs_into(arcs, p) > 0 <==> is_target(arcs, p),
    decreases arcs.len(),
{
    if arcs.len() > 0 {
        lemma_arcs_into_target(arcs.drop_last(), p);
        if is_target(arcs, p) {
            let i = choose|i: int| 0 <= i < arcs.len() && arcs[i].target_place_id == p;
            if i < arcs.len() - 1 {
                assert(arcs.drop_last()[i].target_place_id == p);
            }
        }
        if is_target(arcs.drop_last(), p) {
            let i = choose|i: int| 0 <= i < arcs.drop_last().len() && arcs.drop_last()[i].target_place_id == p;
            assert(arcs[i].target_place_id == p);
        }
        if arcs.last().target_place_id == p {
            assert(arcs[arcs.len() - 1].target_place_id == p);
        }
    }
}

proof fn lemma_binding_tokens_prefix_len(infos: Seq<ObjectBindingInfoView>, a: int)
    requires
        0 <= a <= infos.len(),
    ensures
        binding_tokens(infos.take(a)).len() <= binding_tokens(infos).len(),
        a > 0 ==> binding_tokens(infos.take(a)).len() == binding_tokens(infos.take(a - 1)).len()
            + infos[a - 1].tokens.len(),
    decreases infos.len() - a,
{
    broadcast use vstd::multiset::group_multiset_axioms;
    broadcast use vstd::seq_lib::group_to_multiset_ensures;

    if a > 0 {
        assert(infos.take(a).drop_last() =~= infos.take(a - 1));
    }
    if a < infos.len() {
        lemma_binding_tokens_prefix_len(infos, a + 1);
    } else {
        assert(infos.take(a) =~= infos);
    }
}

impl Marking {
    /// Moves the token counter past every token that `infos` binds.
    fn pass_bound_tokens(&mut self, infos: &Vec<ObjectBindingInfo>)
        ensures
            final(self).petri_net == old(self).petri_net,
            final(self).assignments == old(self).assignments,
            counter_passes(
                old(self).next_token_id as nat,
                final(self).next_token_id as nat,
                binding_tokens(infos@.map_values(|i: ObjectBindingInfo| i@)),
            ),
    {
        broadcast use vstd::multiset::group_multiset_axioms;
        broadcast use vstd::seq_lib::group_to_multiset_ensures;

        let ghost start = self.next_token_id as nat;
        let ghost views = infos@.map_values(|i: ObjectBindingInfo| i@);
        let mut a: usize = 0;
        assert(views.take(0).len() == 0);
        while a < infos.len()
            invariant
                a <= infos.len(),
                views == infos@.map_values(|i: ObjectBindingInfo| i@),
                self.petri_net == old(self).petri_net,
                self.assignments == old(self).assignments,
                counter_passes(start, self.next_token_id as nat, binding_tokens(views.take(a as int))),
            decreases infos.len() - a,
        {
            let info = &infos[a];
            let ghost done = binding_tokens(views.take(a as int));
            proof {
                assert(views.take(a + 1).drop_last() =~= views.take(a as int));
                lemma_binding_tokens_sub(views, a as int + 1);
                assert(views[a as int].tokens == info.tokens@);
            }
            let mut b: usize = 0;
            proof {
                let e = info.tokens@.take(0);
                e.to_multiset_ensures();
                vstd::multiset::lemma_multiset_empty_len(e.to_multiset());
                assert(done.add(e.to_multiset()) =~= done);
            }
            while b < info.tokens.len()
                invariant
                    a < infos.len(),
                    info == &infos[a as int],
                    b <= info.tokens.len(),
                    done.add(info.tokens@.to_multiset()).subset_of(binding_tokens(views)),
                        self.petri_net == old(self).petri_net,
                    self.assignments == old(self).assignments,
                    counter_passes(start, self.next_token_id as nat, done.add(info.tokens@.take(b as int).to_multiset())),
                decreases info.tokens.len() - b,
            {
                let token = info.tokens[b];
                proof {
                    assert(info.tokens@[b as int] == token);
                    assert(info.tokens@.contains(token));
                    info.tokens@.to_multiset_ensures();
                    assert(info.tokens@.to_multiset().count(token) > 0);
                    assert(binding_tokens(views).count(token) > 0);
                    assert(info.tokens@.take(b + 1) =~= info.tokens@.take(b as int).push(token));
                    info.tokens@.take(b as int).to_multiset_ensures();
                }
                if token.id >= self.next_token_id {
                    self.next_token_id = if token.id < usize::MAX { token.id + 1 } else { usize::MAX };
                }
                proof {
                    let now = done.add(info.tokens@.take(b + 1).to_multiset());
                    let before = done.add(info.tokens@.take(b as int).to_multiset());
                    assert(now =~= before.insert(token));
                    if self.next_token_id as nat != start {
                        if bump(token.id) == self.next_token_id {
                            assert(now.count(token) > 0);
                        } else {
                            let w = choose|w: OCToken| before.count(w) > 0 && self.next_token_id == bump(w.id);
                            assert(now.count(w) > 0);
                        }
                    }
                }
                b += 1;
            }
            proof {
                assert(info.tokens@.take(b as int) =~= info.tokens@);
            }
            a += 1;
        }
        assert(views.take(a as int) =~= views);
    }

    /// Fires `transition` with `binding`: takes the bound tokens out of the input
    /// places, then puts all bound tokens into the place of every output arc.
    pub fn fire_transition(&mut self, transition: &Transition, binding: &Binding)
        requires
            old(self).wf(),
            types_distinct(binding@.infos),
            binding_places_present(old(self).tokens(), binding@),
            fire_fits(old(self).tokens(), *transition, binding@),
        ensures
            final(self).wf(),
            final(self).net() == old(self).net(),
            final(self).tokens() == fired(old(self).tokens(), *transition, binding@),
            counter_passes(old(self).next_id(), final(self).next_id(), binding_tokens(binding@.infos)),
    {
        broadcast use vstd::multiset::group_multiset_axioms;

        let ghost old_tokens = self.tokens();
        let ghost views = binding@.infos;
        let infos = &binding.object_binding_info;
        self.pass_bound_tokens(infos);
        let ghost counter = self.next_token_id as nat;
        proof {
            assert forall|p: u128| #[trigger] self.assignments@.contains_key(p) implies ids_below(
                bag_contents(self.assignments@[p]),
                counter,
            ) by {
                assert(old(self).assignments@.contains_key(p));
            }
        }
        // Take the bound tokens out of their places.
        let mut a: usize = 0;
        while a < infos.len()
            invariant
                a <= infos.len(),
                views == infos@.map_values(|i: ObjectBindingInfo| i@),
                binding_places_present(old_tokens, binding@),
                old_tokens == old(self).tokens(),
                views == binding@.infos,
                self.petri_net == old(self).petri_net,
                self.next_token_id as nat == counter,
                self.assignments@.dom() == old(self).assignments@.dom(),
                forall|p: u128| #[trigger]
                    self.assignments@.contains_key(p) ==> bag_contents(self.assignments@[p]) == tokens_at(
                        old_tokens,
                        p,
                    ).sub(binding_removal(views.take(a as int), p)),
                forall|p: u128| #[trigger]
                    self.assignments@.contains_key(p) ==> ids_below(bag_contents(self.assignments@[p]), counter),
            decreases infos.len() - a,
        {
            let info = &infos[a];
            let ghost done = views.take(a as int);
            proof {
                assert(views.take(a + 1).drop_last() =~= done);
                assert(views[a as int] == info@);
            }
            let mut b: usize = 0;
            while b < info.place_bindings.len()
                invariant
                    a < infos.len(),
                    info == &infos[a as int],
                    views == infos@.map_values(|i: ObjectBindingInfo| i@),
                    binding_places_present(old_tokens, binding@),
                    old_tokens == old(self).tokens(),
                    views == binding@.infos,
                    b <= info.place_bindings.len(),
                    self.petri_net == old(self).petri_net,
                    self.next_token_id as nat == counter,
                    self.assignments@.dom() == old(self).assignments@.dom(),
                    forall|p: u128| #[trigger]
                        self.assignments@.contains_key(p) ==> bag_contents(self.assignments@[p]) == tokens_at(
                            old_tokens,
                            p,
                        ).sub(binding_removal(done, p)).sub(
                            place_bindings_removal(info@.place_bindings.take(b as int), p),
                        ),
                    forall|p: u128| #[trigger]
                        self.assignments@.contains_key(p) ==> ids_below(bag_contents(self.assignments@[p]), counter),
                decreases info.place_bindings.len() - b,
            {
                let pb = &info.place_bindings[b];
                proof {
                    assert(info@.place_bindings[b as int] == pb@);
                    assert(binding@.infos[a as int].place_bindings[b as int].place_id == pb.place_id);
                    assert(old_tokens.contains_key(pb.place_id));
                    assert(old(self).assignments@.contains_key(pb.place_id));
                    assert(self.assignments@.dom().contains(pb.place_id));
                }
                let ghost before = self.assignments@;
                let mut bag = self.take_bag(&pb.place_id);
                remove_consumed(&mut bag, pb);
                self.assignments.insert(pb.place_id, bag);
                proof {
                    let pbs = info@.place_bindings;
                    assert(pbs.take(b + 1).drop_last() =~= pbs.take(b as int));
                    assert(pbs.take(b + 1).last() == pb@);
                    assert(self.assignments@.dom() =~= old(self).assignments@.dom());
                    assert forall|p: u128| #[trigger] self.assignments@.contains_key(p) implies bag_contents(
                        self.assignments@[p],
                    ) == tokens_at(old_tokens, p).sub(binding_removal(done, p)).sub(
                        place_bindings_removal(pbs.take(b + 1), p),
                    ) by {
                        let base = tokens_at(old_tokens, p).sub(binding_removal(done, p));
                        lemma_sub_sub(base, place_bindings_removal(pbs.take(b as int), p), if pb.place_id == p {
                            repeat_tokens(pb.consumed@, pb.count)
                        } else {
                            Multiset::empty()
                        });
                        if p != pb.place_id {
                            assert(before.contains_key(p));
                            assert(base.sub(place_bindings_removal(pbs.take(b as int), p)).sub(Multiset::empty()) =~= base.sub(place_bindings_removal(pbs.take(b as int), p)));
                        }
                    }
                    assert forall|p: u128| #[trigger] self.assignments@.contains_key(p) implies ids_below(
                        bag_contents(self.assignments@[p]),
                        counter,
                    ) by {
                        assert(before.contains_key(p));
                        if p == pb.place_id {
                            assert forall|t: OCToken| #[trigger] bag_contents(self.assignments@[p]).count(t) > 0 implies t.id < counter || counter >= usize::MAX by {
                                assert(bag_contents(before[p]).count(t) > 0);
                            }
                        }
                    }
                }
                b += 1;
            }
            proof {
                assert(info@.place_bindings.take(b as int) =~= info@.place_bindings);
                assert forall|p: u128| #[trigger] self.assignments@.contains_key(p) implies bag_contents(
                    self.assignments@[p],
                ) == tokens_at(old_tokens, p).sub(binding_removal(views.take(a + 1), p)) by {
                    lemma_sub_sub(tokens_at(old_tokens, p), binding_removal(done, p), place_bindings_removal(info@.place_bindings, p));
                }
            }
            a += 1;
        }
        assert(views.take(a as int) =~= views);
        // Put every bound token into each output place.
        let ghost removed = self.assignments@;
        let ghost arcs = transition.output_arcs@;
        let ghost all = binding_tokens(views);
        let mut c: usize = 0;
        while c < transition.output_arcs.len()
            invariant
                c <= arcs.len(),
                arcs == transition.output_arcs@,
                views == binding@.infos,
                views == infos@.map_values(|i: ObjectBindingInfo| i@),
                all == binding_tokens(views),
                fire_fits(old_tokens, *transition, binding@),
                old_tokens == old(self).tokens(),
                ids_below(all, counter),
                self.petri_net == old(self).petri_net,
                self.next_token_id as nat == counter,
                forall|p: u128| #[trigger]
                    self.assignments@.contains_key(p) <==> (old(self).assignments@.contains_key(p) || is_target(
                        arcs.take(c as int),
                        p,
                    )),
                forall|p: u128| #[trigger]
                    self.assignments@.contains_key(p) ==> bag_contents(self.assignments@[p]) == tokens_at(
                        old_tokens,
                        p,
                    ).sub(binding_removal(views, p)).add(times(all, arcs_into(arcs.take(c as int), p))),
                forall|p: u128| #[trigger]
                    self.assignments@.contains_key(p) ==> ids_below(bag_contents(self.assignments@[p]), counter),
            decreases arcs.len() - c,
        {
            let target = transition.output_arcs[c].target_place_id;
            let ghost before = self.assignments@;
            proof {
                lemma_arcs_into_prefix(arcs, c as int, target);
                lemma_arcs_into_prefix(arcs, c as int + 1, target);
                let k = arcs_into(arcs.take(c as int), target);
                lemma_times_len_mono(all, k + 1, arcs_into(arcs, target));
                lemma_sub_len_le(tokens_at(old_tokens, target), binding_removal(views, target));
                assert(tokens_at(old_tokens, target).len() + times(all, arcs_into(arcs, target)).len() <= usize::MAX);
                if !before.contains_key(target) {
                    assert(!old(self).assignments@.contains_key(target));
                    assert(!old_tokens.contains_key(target));
                    assert(!is_target(arcs.take(c as int), target));
                    lemma_arcs_into_target(arcs.take(c as int), target);
                    assert(tokens_at(old_tokens, target).sub(binding_removal(views, target)) =~= Multiset::empty());
                    assert(times(all, 0) == Multiset::<OCToken>::empty());
                }
            }
            let mut bag = self.take_bag(&target);
            insert_bound(&mut bag, infos);
            self.assignments.insert(target, bag);
            proof {
                assert(arcs.take(c + 1) =~= arcs.take(c as int).push(arcs[c as int]));
                assert forall|p: u128| #[trigger] self.assignments@.contains_key(p) <==> (old(self).assignments@.contains_key(p) || is_target(arcs.take(c + 1), p)) by {
                    let t1 = arcs.take(c + 1);
                    let t0 = arcs.take(c as int);
                    if is_target(t1, p) && p != target {
                        let i = choose|i: int| 0 <= i < t1.len() && t1[i].target_place_id == p;
                        assert(t0[i].target_place_id == p);
                    }
                    if is_target(t0, p) {
                        let i = choose|i: int| 0 <= i < t0.len() && t0[i].target_place_id == p;
                        assert(t1[i].target_place_id == p);
                    }
                    if p == target {
                        assert(t1[c as int].target_place_id == p);
                    }
                }
                assert forall|p: u128| #[trigger] self.assignments@.contains_key(p) implies bag_contents(self.assignments@[p]) == tokens_at(old_tokens, p).sub(binding_removal(views, p)).add(times(all, arcs_into(arcs.take(c + 1), p))) by {
                    lemma_arcs_into_prefix(arcs, c as int, p);
                    if p == target {
                        assert(times(all, arcs_into(arcs.take(c + 1), p)) == times(all, arcs_into(arcs.take(c as int), p)).add(all));
                        assert(tokens_at(old_tokens, p).sub(binding_removal(views, p)).add(times(all, arcs_into(arcs.take(c as int), p))).add(all) =~= tokens_at(old_tokens, p).sub(binding_removal(views, p)).add(times(all, arcs_into(arcs.take(c + 1), p))));
                    } else {
                        assert(before.contains_key(p));
                    }
                }
                assert forall|p: u128| #[trigger] self.assignments@.contains_key(p) implies ids_below(bag_contents(self.assignments@[p]), counter) by {
                    if p == target {
                        assert forall|t: OCToken| #[trigger] bag_contents(self.assignments@[p]).count(t) > 0 implies t.id < counter || counter >= usize::MAX by {
                            if all.count(t) == 0 {
                                if before.contains_key(p) {
                                    assert(bag_contents(before[p]).count(t) > 0);
                                }
                            }
                        }
                    } else {
                        assert(before.contains_key(p));
                    }
                }
            }
            c += 1;
        }
        proof {
            assert(arcs.take(c as int) =~= arcs);
            assert(self.tokens() =~= fired(old_tokens, *transition, binding@)) by {
                assert forall|p: u128| #[trigger] self.tokens().contains_key(p) == fired(old_tokens, *transition, binding@).contains_key(p) by {
                }
            }
        }
    }
}

proof fn lemma_binding_tokens_sub(infos: Seq<ObjectBindingInfoView>, a: int)
    requires
        0 <= a <= infos.len(),
    ensures
        binding_tokens(infos.take(a)).subset_of(binding_tokens(infos)),
        a > 0 ==> binding_tokens(infos.take(a)) == binding_tokens(infos.take(a - 1)).add(infos[a - 1].tokens.to_multiset()),
    decreases infos.len() - a,
{
    broadcast use vstd::multiset::group_multiset_axioms;

    if a > 0 {
        assert(infos.take(a).drop_last() =~= infos.take(a - 1));
    }
    if a < infos.len() {
        lemma_binding_tokens_sub(infos, a + 1);
    } else {
        assert(infos.take(a) =~= infos);
    }
}

/// The places the arcs come from, each once, in order of first appearance.
pub open spec fn input_places(arcs: Seq<InputArc>) -> Seq<u128>
    decreases arcs.len(),
{
    if arcs.len() == 0 {
        Seq::empty()
    } else {
        let prev = input_places(arcs.drop_last());
        if prev.contains(arcs.last().source_place_id) {
            prev
        } else {
            prev.push(arcs.last().source_place_id)
        }
    }
}

/// How many of the arcs come from place `p`.
pub open spec fn arc_count(arcs: Seq<InputArc>, p: u128) -> nat
    decreases arcs.len(),
{
    if arcs.len() == 0 {
        0
    } else {
        arc_count(arcs.drop_last(), p) + if arcs.last().source_place_id == p { 1nat } else { 0nat }
    }
}

/// Whether a variable arc comes from place `p`.
pub open spec fn has_variable_arc(arcs: Seq<InputArc>, p: u128) -> bool {
    exists|i: int| 0 <= i < arcs.len() && arcs[i].source_place_id == p && arcs[i].variable
}

/// The object type of place `p` of `net`.
pub open spec fn place_type(net: ObjectCentricPetriNet, p: u128) -> Seq<char> {
    net.place(p).object_type@
}

/// The object types of `places`, each once, in order of first appearance.
pub open spec fn input_types(net: ObjectCentricPetriNet, places: Seq<u128>) -> Seq<Seq<char>>
    decreases places.len(),
{
    if places.len() == 0 {
        Seq::empty()
    } else {
        let prev = input_types(net, places.drop_last());
        let ty = place_type(net, places.last());
        if prev.contains(ty) {
            prev
        } else {
            prev.push(ty)
        }
    }
}

/// The places of `places` whose object type is `ty`.
pub open spec fn places_of_type(net: ObjectCentricPetriNet, places: Seq<u128>, ty: Seq<char>) -> Seq<u128> {
    places.filter(|p: u128| place_type(net, p) == ty)
}

/// Whether a variable arc comes from a place of object type `ty`.
pub open spec fn type_is_variable(net: ObjectCentricPetriNet, arcs: Seq<InputArc>, ty: Seq<char>) -> bool {
    exists|i: int| 0 <= i < arcs.len() && place_type(net, arcs[i].source_place_id) == ty && arcs[i].variable
}

/// A transition the marking can be asked about: every input arc comes from a place of
/// the net, and arcs from places of one object type are all variable or all not.
pub open spec fn transition_consistent(net: ObjectCentricPetriNet, t: Transition) -> bool {
    let arcs = t.input_arcs@;
    &&& forall|i: int| 0 <= i < arcs.len() ==> net.has_place(#[trigger] arcs[i].source_place_id)
    &&& forall|i: int, j: int|
        0 <= i < arcs.len() && 0 <= j < arcs.len() && place_type(net, #[trigger] arcs[i].source_place_id)
            == place_type(net, #[trigger] arcs[j].source_place_id) ==> arcs[i].variable == arcs[j].variable
}

/// Token `x` lies in every place of `places` at least once per arc that comes from there.
pub open spec fn enough_everywhere(
    m: Map<u128, Multiset<OCToken>>,
    arcs: Seq<InputArc>,
    places: Seq<u128>,
    x: OCToken,
) -> bool {
    forall|j: int| 0 <= j < places.len() ==> #[trigger] tokens_at(m, places[j]).count(x) >= arc_count(arcs, places[j])
}

/// The tokens a firing can bind for object type `ty`: those that lie in every input
/// place of that type at least once per arc from that place.
pub open spec fn type_support(
    m: Map<u128, Multiset<OCToken>>,
    net: ObjectCentricPetriNet,
    arcs: Seq<InputArc>,
    ty: Seq<char>,
) -> Set<OCToken> {
    Set::new(|x: OCToken| enough_everywhere(m, arcs, places_of_type(net, input_places(arcs), ty), x))
}

/// `e` lists the tokens of `s`, each once.
pub open spec fn enumerates(e: Seq<OCToken>, s: Set<OCToken>) -> bool {
    e.no_duplicates() && e.to_set() == s
}

/// The entry for a non-variable object type binding token `x`: every input place of
/// the type gives up `x` once per arc from it.
pub open spec fn single_token_info(
    arcs: Seq<InputArc>,
    ty: Seq<char>,
    places: Seq<u128>,
    x: OCToken,
) -> ObjectBindingInfoView {
    ObjectBindingInfoView {
        object_type: ty,
        tokens: seq![x],
        place_bindings: places.map_values(
            |p: u128|
                PlaceBindingView {
                    place_id: p,
                    consumed: Seq::new(arc_count(arcs, p), |i: int| x),
                    count: arc_count(arcs, p) as usize,
                },
        ),
    }
}

/// The entry for a variable object type binding the tokens `ts`: every input place of
/// the type gives up all of them.
pub open spec fn token_set_info(
    arcs: Seq<InputArc>,
    ty: Seq<char>,
    places: Seq<u128>,
    ts: Seq<OCToken>,
) -> ObjectBindingInfoView {
    ObjectBindingInfoView {
        object_type: ty,
        tokens: ts,
        place_bindings: places.map_values(
            |p: u128| PlaceBindingView { place_id: p, consumed: ts, count: arc_count(arcs, p) as usize },
        ),
    }
}

/// Bit `j` of `mask` is set.
pub open spec fn has_bit(mask: usize, j: usize) -> bool {
    mask & (1usize << j) != 0
}

/// The items of `items` at the positions whose bit is set in `mask`, in order.
pub open spec fn mask_subseq(items: Seq<OCToken>, mask: usize) -> Seq<OCToken>
    decreases items.len(),
{
    if items.len() == 0 {
        Seq::empty()
    } else {
        let prev = mask_subseq(items.drop_last(), mask);
        if has_bit(mask, (items.len() - 1) as usize) {
            prev.push(items.last())
        } else {
            prev
        }
    }
}

/// All subsequences of `items`: the `i`-th keeps the items whose position is a set bit of `i`.
pub open spec fn subsets_by_mask(items: Seq<OCToken>) -> Seq<Seq<OCToken>> {
    Seq::new((1usize << items.len() as usize) as nat, |i: int| mask_subseq(items, i as usize))
}

/// `ps` without its first entry, the last entry moved into its place.
pub open spec fn swap_out_first<A>(ps: Seq<A>) -> Seq<A> {
    ps.update(0, ps.last()).drop_last()
}

/// The entries a firing can use for object type `ty`, given the listing `e` of its support.
pub open spec fn type_options(
    net: ObjectCentricPetriNet,
    arcs: Seq<InputArc>,
    ty: Seq<char>,
    e: Seq<OCToken>,
) -> Seq<ObjectBindingInfoView> {
    let places = places_of_type(net, input_places(arcs), ty);
    if type_is_variable(net, arcs, ty) {
        swap_out_first(subsets_by_mask(e)).map_values(|ts: Seq<OCToken>| token_set_info(arcs, ty, places, ts))
    } else {
        e.map_values(|x: OCToken| single_token_info(arcs, ty, places, x))
    }
}

/// The object types of the input places of `t`.
pub open spec fn transition_types(net: ObjectCentricPetriNet, t: Transition) -> Seq<Seq<char>> {
    input_types(net, input_places(t.input_arcs@))
}

/// `es` lists, for each object type of `t`'s input places, the tokens a firing can bind.
pub open spec fn support_listing(
    m: Map<u128, Multiset<OCToken>>,
    net: ObjectCentricPetriNet,
    t: Transition,
    es: Seq<Seq<OCToken>>,
) -> bool {
    let types = transition_types(net, t);
    &&& es.len() == types.len()
    &&& forall|j: int| 0 <= j < types.len() ==> enumerates(#[trigger] es[j], type_support(m, net, t.input_arcs@, types[j]))
}

/// Some object type of `t` has no token a firing could bind, or `t` has no input arc.
pub open spec fn firing_blocked(m: Map<u128, Multiset<OCToken>>, net: ObjectCentricPetriNet, t: Transition) -> bool {
    let types = transition_types(net, t);
    t.input_arcs@.len() == 0 || exists|j: int|
        0 <= j < types.len() && type_support(m, net, t.input_arcs@, #[trigger] types[j]).is_empty()
}

/// The bindings of `t`, given listings `es` of the supports: every way to pick one entry
/// per object type, the first type varying slowest.
pub open spec fn firing_bindings(
    m: Map<u128, Multiset<OCToken>>,
    net: ObjectCentricPetriNet,
    t: Transition,
    es: Seq<Seq<OCToken>>,
) -> Seq<BindingView> {
    let types = transition_types(net, t);
    if firing_blocked(m, net, t) {
        Seq::empty()
    } else {
        product_spec(Seq::new(types.len(), |j: int| type_options(net, t.input_arcs@, types[j], es[j]))).map_values(
            |c: Seq<ObjectBindingInfoView>| BindingView { transition_id: t.id, infos: c },
        )
    }
}

/// Groups the arcs by the place they come from: each place once, in order of first
/// appearance, with its number of arcs and whether one of them is variable.
fn group_input_arcs(arcs: &Vec<InputArc>) -> (groups: Vec<(u128, usize, bool)>)
    ensures
        groups@.map_values(|g: (u128, usize, bool)| g.0) == input_places(arcs@),
        forall|i: int|
            0 <= i < groups@.len() ==> {
                &&& (#[trigger] groups@[i]).1 == arc_count(arcs@, groups@[i].0)
                &&& groups@[i].2 == has_variable_arc(arcs@, groups@[i].0)
            },
{
    let mut groups: Vec<(u128, usize, bool)> = Vec::new();
    let mut i: usize = 0;
    assert(arcs@.take(0).len() == 0);
    while i < arcs.len()
        invariant
            i <= arcs.len(),
            groups@.map_values(|g: (u128, usize, bool)| g.0) == input_places(arcs@.take(i as int)),
            forall|k: int|
                0 <= k < groups@.len() ==> {
                    &&& (#[trigger] groups@[k]).1 == arc_count(arcs@.take(i as int), groups@[k].0)
                    &&& groups@[k].2 == has_variable_arc(arcs@.take(i as int), groups@[k].0)
                    &&& groups@[k].1 <= i
                },
        decreases arcs.len() - i,
    {
        let arc = arcs[i];
        let ghost pre = arcs@.take(i as int);
        let ghost next = arcs@.take(i + 1);
        proof {
            assert(next.drop_last() =~= pre);
            assert(next.last() == arc);
        }
        let ghost old_groups = groups@;
        let mut k: usize = 0;
        let mut found = false;
        while k < groups.len() && !found
            invariant
                k <= groups.len(),
                groups@ == old_groups,
                found ==> k < groups.len() && groups@[k as int].0 == arc.source_place_id,
                forall|q: int| 0 <= q < k ==> (#[trigger] groups@[q]).0 != arc.source_place_id,
            decreases groups.len() - k + if found { 0int } else { 1int },
        {
            if groups[k].0 == arc.source_place_id {
                found = true;
            } else {
                k += 1;
            }
        }
        if found {
            let (place, count, variable) = groups[k];
            groups.set(k, (place, count + 1, variable || arc.variable));
        } else {
            proof {
                lemma_arc_count_absent(pre, arc.source_place_id, old_groups);
            }
            groups.push((arc.source_place_id, 1, arc.variable));
        }
        proof {
            let keys = groups@.map_values(|g: (u128, usize, bool)| g.0);
            let old_keys = old_groups.map_values(|g: (u128, usize, bool)| g.0);
            if found {
                assert(old_keys[k as int] == arc.source_place_id);
                assert(keys =~= old_keys);
            } else {
                assert(!old_keys.contains(arc.source_place_id)) by {
                    if old_keys.contains(arc.source_place_id) {
                        let q = choose|q: int| 0 <= q < old_keys.len() && old_keys[q] == arc.source_place_id;
                        assert(old_groups[q].0 == arc.source_place_id);
                    }
                }
                assert(keys =~= old_keys.push(arc.source_place_id));
            }
            assert forall|q: int| 0 <= q < groups@.len() implies {
                &&& (#[trigger] groups@[q]).1 == arc_count(next, groups@[q].0)
                &&& groups@[q].2 == has_variable_arc(next, groups@[q].0)
                &&& groups@[q].1 <= i + 1
            } by {
                let p = groups@[q].0;
                lemma_input_places_cover(pre, p);
                if found && q != k {
                    assert(groups@[q] == old_groups[q]);
                    assert(old_keys[q] == p && old_keys[k as int] == arc.source_place_id);
                    assert(p != arc.source_place_id);
                } else if !found && q < old_groups.len() {
                    assert(groups@[q] == old_groups[q]);
                    assert(p != arc.source_place_id);
                }
                if has_variable_arc(pre, p) {
                    let w = choose|w: int| 0 <= w < pre.len() && pre[w].source_place_id == p && pre[w].variable;
                    assert(next[w] == pre[w]);
                }
                if has_variable_arc(next, p) {
                    let w = choose|w: int| 0 <= w < next.len() && next[w].source_place_id == p && next[w].variable;
                    if w < pre.len() {
                        assert(pre[w] == next[w]);
                    } else {
                        assert(w == i);
                    }
                }
                if p == arc.source_place_id && arc.variable {
                    assert(next[i as int] == arc);
                }
            }
        }
        i += 1;
    }
    assert(arcs@.take(i as int) =~= arcs@);
    groups
}

proof fn lemma_arc_count_absent(arcs: Seq<InputArc>, p: u128, groups: Seq<(u128, usize, bool)>)
    requires
        groups.map_values(|g: (u128, usize, bool)| g.0) == input_places(arcs),
        forall|q: int| 0 <= q < groups.len() ==> (#[trigger] groups[q]).0 != p,
    ensures
        arc_count(arcs, p) == 0,
        !has_variable_arc(arcs, p),
{
    lemma_input_places_cover(arcs, p);
    if arc_count(arcs, p) > 0 || has_variable_arc(arcs, p) {
        let keys = groups.map_values(|g: (u128, usize, bool)| g.0);
        let q = choose|q: int| 0 <= q < keys.len() && keys[q] == p;
        assert(groups[q].0 == p);
    }
}

/// A place with an arc is among the input places.
proof fn lemma_input_places_cover(arcs: Seq<InputArc>, p: u128)
    ensures
        (arc_count(arcs, p) > 0 || has_variable_arc(arcs, p) || exists|i: int|
            0 <= i < arcs.len() && arcs[i].source_place_id == p) ==> input_places(arcs).contains(p),
        input_places(arcs).contains(p) ==> arc_count(arcs, p) > 0,
        input_places(arcs).contains(p) ==> exists|i: int| 0 <= i < arcs.len() && arcs[i].source_place_id == p,
        input_places(arcs).no_duplicates(),
    decreases arcs.len(),
{
    if arcs.len() > 0 {
        let pre = arcs.drop_last();
        lemma_input_places_cover(pre, p);
        let prev = input_places(pre);
        let last = arcs.last().source_place_id;
        if exists|i: int| 0 <= i < arcs.len() && arcs[i].source_place_id == p {
            let i = choose|i: int| 0 <= i < arcs.len() && arcs[i].source_place_id == p;
            if i < pre.len() {
                assert(pre[i].source_place_id == p);
            }
        }
        if has_variable_arc(arcs, p) {
            let i = choose|i: int| 0 <= i < arcs.len() && arcs[i].source_place_id == p && arcs[i].variable;
            if i < pre.len() {
                assert(pre[i].source_place_id == p);
            }
        }
        if input_places(pre).contains(p) {
            let i = choose|i: int| 0 <= i < pre.len() && pre[i].source_place_id == p;
            assert(arcs[i].source_place_id == p);
        }
        if last == p {
            assert(arcs[arcs.len() - 1].source_place_id == p);
        }
        if prev.contains(p) {
            let j = choose|j: int| 0 <= j < prev.len() && prev[j] == p;
            assert(input_places(arcs)[j] == p);
        }
        if last == p && !prev.contains(last) {
            assert(input_places(arcs)[prev.len() as int] == p);
        }
        if !prev.contains(last) {
            assert forall|a: int, b: int| 0 <= a < b < prev.push(last).len() implies prev.push(last)[a] != prev.push(last)[b] by {
                if b == prev.len() {
                    assert(prev.contains(prev[a]));
                }
            }
        }
    }
}

/// The least number of occurrences of `x` over `bags` (none where there is no bag).
pub open spec fn min_count(bags: Seq<Multiset<OCToken>>, x: OCToken) -> nat
    decreases bags.len(),
{
    if bags.len() == 0 {
        0
    } else if bags.len() == 1 {
        bags[0].count(x)
    } else {
        let rest = min_count(bags.drop_last(), x);
        let last = bags.last().count(x);
        if rest <= last { rest } else { last }
    }
}

proof fn lemma_subset_len(a: Multiset<OCToken>, b: Multiset<OCToken>)
    requires
        a.subset_of(b),
    ensures
        a.len() <= b.len(),
{
    broadcast use vstd::multiset::group_multiset_axioms;

    assert(b.sub(a).len() == b.len() - a.len());
}

/// A bag holding each token as often as it occurs in both `a` and `b`, whichever is fewer.
fn intersect_two(a: &HashBag<OCToken>, b: &HashBag<OCToken>) -> (r: HashBag<OCToken>)
    ensures
        forall|x: OCToken| #[trigger] bag_contents(r).count(x) == if bag_contents(*a).count(x) <= bag_contents(*b).count(x) {
            bag_contents(*a).count(x)
        } else {
            bag_contents(*b).count(x)
        },
{
    broadcast use vstd::multiset::group_multiset_axioms;

    let _total = bag_len(a);
    let entries = bag_entries(a);
    proof {
        lemma_entries_are_contents(entries@, bag_contents(*a));
    }
    let mut r = bag_new();
    let mut j: usize = 0;
    while j < entries.len()
        invariant
            j <= entries.len(),
            entries_multiset(entries@) == bag_contents(*a),
            bag_contents(*a).len() <= usize::MAX,
            entry_tokens(entries@).no_duplicates(),
            forall|i: int| 0 <= i < entries@.len() ==> (#[trigger] entries@[i]).1 == bag_contents(*a).count(entries@[i].0),
            bag_contents(r).subset_of(entries_multiset(entries@.take(j as int))),
            forall|x: OCToken| #[trigger] bag_contents(r).count(x) == if entry_tokens(entries@.take(j as int)).contains(x) {
                if bag_contents(*a).count(x) <= bag_contents(*b).count(x) {
                    bag_contents(*a).count(x)
                } else {
                    bag_contents(*b).count(x)
                }
            } else {
                0
            },
        decreases entries.len() - j,
    {
        let (t, c) = entries[j];
        let in_b = bag_count(b, &t);
        let m = if c <= in_b { c } else { in_b };
        let ghost pre = entries@.take(j as int);
        proof {
            assert(entries@.take(j + 1).drop_last() =~= pre);
            assert(entry_tokens(entries@.take(j + 1)) =~= entry_tokens(pre).push(t));
            lemma_entries_prefix_len(entries@, j as int + 1);
            lemma_subset_len(bag_contents(r), entries_multiset(pre));
            lemma_copies_count(t, c as nat, t);
            assert(entries_multiset(entries@.take(j + 1)).len() == entries_multiset(pre).len() + c);
            let k0 = entry_tokens(pre);
            let ka = entry_tokens(entries@);
            assert(!k0.contains(t)) by {
                if k0.contains(t) {
                    let q = choose|q: int| 0 <= q < k0.len() && k0[q] == t;
                    assert(ka[q] == t);
                    assert(ka[j as int] == t);
                }
            }
        }
        let ghost before = bag_contents(r);
        if m > 0 {
            bag_insert_many(&mut r, t, m);
        }
        proof {
            assert forall|x: OCToken| #[trigger] bag_contents(r).count(x) <= entries_multiset(entries@.take(j + 1)).count(x) by {
                lemma_copies_count(t, m as nat, x);
                lemma_copies_count(t, c as nat, x);
            }
            assert forall|x: OCToken| #[trigger] bag_contents(r).count(x) == if entry_tokens(entries@.take(j + 1)).contains(x) {
                if bag_contents(*a).count(x) <= bag_contents(*b).count(x) {
                    bag_contents(*a).count(x)
                } else {
                    bag_contents(*b).count(x)
                }
            } else {
                0
            } by {
                lemma_copies_count(t, m as nat, x);
                let k1 = entry_tokens(entries@.take(j + 1));
                let k0 = entry_tokens(pre);
                if x != t {
                    if k1.contains(x) {
                        let q = choose|q: int| 0 <= q < k1.len() && k1[q] == x;
                        assert(q != j);
                        assert(k0[q] == x);
                    }
                    if k0.contains(x) {
                        let q = choose|q: int| 0 <= q < k0.len() && k0[q] == x;
                        assert(k1[q] == x);
                    }
                } else {
                    assert(k1[j as int] == t);
                }
            }
        }
        j += 1;
    }
    proof {
        assert(entries@.take(j as int) =~= entries@);
        assert forall|x: OCToken| #[trigger] bag_contents(r).count(x) == if bag_contents(*a).count(x) <= bag_contents(*b).count(x) {
            bag_contents(*a).count(x)
        } else {
            bag_contents(*b).count(x)
        } by {
            if !entry_tokens(entries@).contains(x) {
                lemma_entries_count(entries@, x);
            }
        }
    }
    r
}

/// A bag holding each token as often as it occurs in every one of `bags`,
/// whichever is fewest (an empty bag where there are no bags).
fn intersect_hashbags(bags: &Vec<HashBag<OCToken>>) -> (r: HashBag<OCToken>)
    ensures
        forall|x: OCToken| #[trigger] bag_contents(r).count(x) == min_count(
            bags@.map_values(|b: HashBag<OCToken>| bag_contents(b)),
            x,
        ),
{
    broadcast use vstd::multiset::group_multiset_axioms;

    let ghost all = bags@.map_values(|b: HashBag<OCToken>| bag_contents(b));
    if bags.len() == 0 {
        return bag_new();
    }
    let mut acc = bag_clone(&bags[0]);
    let mut i: usize = 1;
    proof {
        assert forall|x: OCToken| #[trigger] bag_contents(acc).count(x) == min_count(all.take(1), x) by {
            assert(all.take(1).len() == 1);
        }
    }
    while i < bags.len()
        invariant
            1 <= i <= bags.len(),
            all == bags@.map_values(|b: HashBag<OCToken>| bag_contents(b)),
            forall|x: OCToken| #[trigger] bag_contents(acc).count(x) == min_count(all.take(i as int), x),
        decreases bags.len() - i,
    {
        acc = intersect_two(&acc, &bags[i]);
        proof {
            assert(all.take(i + 1).drop_last() =~= all.take(i as int));
            assert(all.take(i + 1).last() == bag_contents(bags@[i as int]));
        }
        i += 1;
    }
    assert(all.take(i as int) =~= all);
    acc
}

/// The distinct tokens of `bag`, each once, in the order in which the bag's table is walked.
fn distinct_tokens(bag: &HashBag<OCToken>) -> (r: Vec<OCToken>)
    ensures
        enumerates(r@, bag_contents(*bag).dom()),
{
    let entries = bag_entries(bag);
    let ghost keys = entry_tokens(entries@);
    let mut r: Vec<OCToken> = Vec::new();
    let mut i: usize = 0;
    while i < entries.len()
        invariant
            i <= entries.len(),
            keys == entry_tokens(entries@),
            keys.no_duplicates(),
            r@.no_duplicates(),
            forall|q: int| 0 <= q < entries@.len() ==> (#[trigger] entries@[q]).1 == bag_contents(*bag).count(entries@[q].0),
            forall|x: OCToken|
                #[trigger] r@.contains(x) <==> exists|q: int| 0 <= q < i && (#[trigger] entries@[q]).0 == x && entries@[q].1 > 0,
        decreases entries.len() - i,
    {
        let (t, c) = entries[i];
        let ghost before = r@;
        if c > 0 {
            proof {
                assert(!before.contains(t)) by {
                    if before.contains(t) {
                        let q = choose|q: int| 0 <= q < i && (#[trigger] entries@[q]).0 == t && entries@[q].1 > 0;
                        assert(keys[q] == t && keys[i as int] == t);
                    }
                }
            }
            r.push(t);
            proof {
                assert forall|a: int, b: int| 0 <= a < b < r@.len() implies r@[a] != r@[b] by {
                    if b == before.len() {
                        assert(before.contains(before[a]));
                    }
                }
            }
        }
        proof {
            assert forall|x: OCToken| #[trigger] r@.contains(x) <==> exists|q: int|
                0 <= q < i + 1 && (#[trigger] entries@[q]).0 == x && entries@[q].1 > 0 by {
                if r@.contains(x) && !before.contains(x) {
                    assert(entries@[i as int].0 == x);
                }
                if exists|q: int| 0 <= q < i + 1 && (#[trigger] entries@[q]).0 == x && entries@[q].1 > 0 {
                    let q = choose|q: int| 0 <= q < i + 1 && (#[trigger] entries@[q]).0 == x && entries@[q].1 > 0;
                    if q < i {
                        assert(before.contains(x));
                        let k = choose|k: int| 0 <= k < before.len() && before[k] == x;
                        assert(r@[k] == x);
                    } else {
                        assert(r@[r@.len() - 1] == x);
                    }
                }
            }
        }
        i += 1;
    }
    proof {
        assert(r@.to_set() =~= bag_contents(*bag).dom()) by {
            assert forall|x: OCToken| r@.to_set().contains(x) <==> bag_contents(*bag).dom().contains(x) by {
                if bag_contents(*bag).count(x) > 0 {
                    let q = choose|q: int| 0 <= q < entries@.len() && (#[trigger] entries@[q]).0 == x;
                    assert(entries@[q].1 > 0);
                    assert(r@.contains(x));
                }
                if r@.contains(x) {
                    let q = choose|q: int| 0 <= q < i && (#[trigger] entries@[q]).0 == x && entries@[q].1 > 0;
                    assert(bag_contents(*bag).count(x) > 0);
                }
            }
        }
    }
    r
}

/// All subsets of the distinct tokens of `bag`, the empty one first: subset `i` holds
/// the tokens at the positions of the set bits of `i`.
fn power_set(bag: &HashBag<OCToken>) -> (r: Vec<Vec<OCToken>>)
    requires
        bag_contents(*bag).dom().len() < usize::BITS,
    ensures
        exists|e: Seq<OCToken>|
            enumerates(e, bag_contents(*bag).dom()) && r@.map_values(|v: Vec<OCToken>| v@) == subsets_by_mask(e),
{
    let unique_items = distinct_tokens(bag);
    proof {
        unique_items@.unique_seq_to_set();
    }
    let n = unique_items.len();
    assert(n < usize::BITS);
    let num_subsets: usize = 1usize << n;
    let mut power_sets: Vec<Vec<OCToken>> = Vec::with_capacity(num_subsets);
    let ghost e = unique_items@;
    assert(n < usize::BITS);
    let mut i: usize = 0;
    while i < num_subsets
        invariant
            i <= num_subsets,
            n == e.len(),
            n < usize::BITS,
            e == unique_items@,
            num_subsets == 1usize << n,
            power_sets@.map_values(|v: Vec<OCToken>| v@) == subsets_by_mask(e).take(i as int),
        decreases num_subsets - i,
    {
        let mut subset: Vec<OCToken> = Vec::new();
        let mut j: usize = 0;
        while j < n
            invariant
                j <= n,
                n == e.len(),
                e == unique_items@,
                n < usize::BITS,
                subset@ == mask_subseq(e.take(j as int), i),
            decreases n - j,
        {
            if (i & (1usize << j)) != 0 {
                subset.push(unique_items[j]);
            }
            proof {
                assert(e.take(j + 1).drop_last() =~= e.take(j as int));
                assert(e.take(j + 1).last() == e[j as int]);
            }
            j += 1;
        }
        assert(e.take(j as int) =~= e);
        let ghost before = power_sets@.map_values(|v: Vec<OCToken>| v@);
        power_sets.push(subset);
        proof {
            assert(power_sets@.map_values(|v: Vec<OCToken>| v@) =~= before.push(subset@));
            assert(subsets_by_mask(e).take(i + 1) =~= subsets_by_mask(e).take(i as int).push(mask_subseq(e, i)));
        }
        i += 1;
    }
    assert(subsets_by_mask(e).take(i as int) =~= subsets_by_mask(e));
    power_sets
}

impl Marking {
    /// A copy of the bag of place `p` keeping only the tokens that lie there at least
    /// `k` times.
    fn filtered_bag(&self, p: &u128, k: usize) -> (r: HashBag<OCToken>)
        ensures
            forall|x: OCToken| #[trigger] bag_contents(r).count(x) == if tokens_at(self.tokens(), *p).count(x) >= k {
                tokens_at(self.tokens(), *p).count(x)
            } else {
                0
            },
    {
        broadcast use vstd::multiset::group_multiset_axioms;

        let mut bag = match self.assignments.get(p) {
            Some(b) => bag_clone(b),
            None => bag_new(),
        };
        bag_retain_at_least(&mut bag, k);
        bag
    }

    /// The object types of `places`, each once, in order of first appearance.
    fn input_object_types(&self, places: &Vec<u128>) -> (r: Vec<String>)
        requires
            forall|i: int| 0 <= i < places@.len() ==> self.net().has_place(#[trigger] places@[i]),
        ensures
            r@.map_values(|s: String| s@) == input_types(self.net(), places@),
    {
        let mut r: Vec<String> = Vec::new();
        let mut i: usize = 0;
        while i < places.len()
            invariant
                i <= places.len(),
                forall|q: int| 0 <= q < places@.len() ==> self.net().has_place(#[trigger] places@[q]),
                r@.map_values(|s: String| s@) == input_types(self.net(), places@.take(i as int)),
            decreases places.len() - i,
        {
            let ghost types = r@.map_values(|s: String| s@);
            proof {
                assert(self.net().has_place(places@[i as int]));
                assert(places@.take(i + 1).drop_last() =~= places@.take(i as int));
                assert(places@.take(i + 1).last() == places@[i as int]);
            }
            match self.petri_net.get_place(&places[i]) {
                Some(place) => {
                    let mut k: usize = 0;
                    let mut found = false;
                    while k < r.len() && !found
                        invariant
                            k <= r.len(),
                            types == r@.map_values(|s: String| s@),
                            found ==> k < r.len() && r@[k as int]@ == place.object_type@,
                            forall|q: int| 0 <= q < k ==> (#[trigger] r@[q])@ != place.object_type@,
                        decreases r.len() - k + if found { 0int } else { 1int },
                    {
                        if r[k] == place.object_type {
                            found = true;
                        } else {
                            k += 1;
                        }
                    }
                    if !found {
                        r.push(place.object_type.clone());
                        proof {
                            assert(!types.contains(place.object_type@)) by {
                                if types.contains(place.object_type@) {
                                    let q = choose|q: int| 0 <= q < types.len() && types[q] == place.object_type@;
                                    assert(r@[q]@ == place.object_type@);
                                }
                            }
                            assert(r@.map_values(|s: String| s@) =~= types.push(place.object_type@));
                        }
                    } else {
                        proof {
                            assert(types[k as int] == place.object_type@);
                        }
                    }
                },
                None => {},
            }
            i += 1;
        }
        assert(places@.take(i as int) =~= places@);
        r
    }
}

/// The groups of places of object type `ty`.
pub open spec fn groups_of_type(
    net: ObjectCentricPetriNet,
    groups: Seq<(u128, usize, bool)>,
    ty: Seq<char>,
) -> Seq<(u128, usize, bool)> {
    groups.filter(|g: (u128, usize, bool)| place_type(net, g.0) == ty)
}

proof fn lemma_filter_keys(net: ObjectCentricPetriNet, groups: Seq<(u128, usize, bool)>, ty: Seq<char>)
    ensures
        groups_of_type(net, groups, ty).map_values(|g: (u128, usize, bool)| g.0) == places_of_type(
            net,
            groups.map_values(|g: (u128, usize, bool)| g.0),
            ty,
        ),
    decreases groups.len(),
{
    reveal_with_fuel(Seq::filter, 1);
    let keys = groups.map_values(|g: (u128, usize, bool)| g.0);
    if groups.len() > 0 {
        lemma_filter_keys(net, groups.drop_last(), ty);
        assert(keys.drop_last() =~= groups.drop_last().map_values(|g: (u128, usize, bool)| g.0));
        let f = groups_of_type(net, groups, ty);
        let fp = groups_of_type(net, groups.drop_last(), ty);
        if place_type(net, groups.last().0) == ty {
            assert(f == fp.push(groups.last()));
            assert(f.map_values(|g: (u128, usize, bool)| g.0) =~= fp.map_values(|g: (u128, usize, bool)| g.0).push(groups.last().0));
        } else {
            assert(f == fp);
        }
    } else {
        assert(groups_of_type(net, groups, ty).map_values(|g: (u128, usize, bool)| g.0) =~= Seq::<u128>::empty());
        assert(places_of_type(net, keys, ty) =~= Seq::<u128>::empty());
    }
}

impl Marking {
    /// The groups of input places whose object type is `ty`, in order.
    fn type_members(&self, groups: &Vec<(u128, usize, bool)>, ty: &String) -> (r: Vec<(u128, usize, bool)>)
        requires
            forall|i: int| 0 <= i < groups@.len() ==> self.net().has_place(#[trigger] groups@[i].0),
        ensures
            r@ == groups_of_type(self.net(), groups@, ty@),
    {
        let mut r: Vec<(u128, usize, bool)> = Vec::new();
        let mut i: usize = 0;
        while i < groups.len()
            invariant
                i <= groups.len(),
                forall|q: int| 0 <= q < groups@.len() ==> self.net().has_place(#[trigger] groups@[q].0),
                r@ == groups_of_type(self.net(), groups@.take(i as int), ty@),
            decreases groups.len() - i,
        {
            proof {
                reveal_with_fuel(Seq::filter, 1);
                assert(groups@.take(i + 1).drop_last() =~= groups@.take(i as int));
                assert(groups@.take(i + 1).last() == groups@[i as int]);
                assert(self.net().has_place(groups@[i as int].0));
            }
            match self.petri_net.get_place(&groups[i].0) {
                Some(place) => {
                    if place.object_type == *ty {
                        r.push(groups[i]);
                    }
                },
                None => {},
            }
            i += 1;
        }
        assert(groups@.take(i as int) =~= groups@);
        r
    }
}

/// One place binding per member place, each taking `x` once per arc of the place.
fn single_token_bindings(members: &Vec<(u128, usize, bool)>, x: OCToken) -> (r: Vec<PlaceBinding>)
    ensures
        r@.map_values(|pb: PlaceBinding| pb@) == members@.map_values(
            |g: (u128, usize, bool)| PlaceBindingView { place_id: g.0, consumed: Seq::new(g.1 as nat, |i: int| x), count: g.1 },
        ),
{
    let mut r: Vec<PlaceBinding> = Vec::new();
    let mut i: usize = 0;
    while i < members.len()
        invariant
            i <= members.len(),
            r@.map_values(|pb: PlaceBinding| pb@) == members@.take(i as int).map_values(
                |g: (u128, usize, bool)| PlaceBindingView { place_id: g.0, consumed: Seq::new(g.1 as nat, |i: int| x), count: g.1 },
            ),
        decreases members.len() - i,
    {
        let (place_id, count, _) = members[i];
        let mut consumed: Vec<OCToken> = Vec::new();
        let mut c: usize = 0;
        while c < count
            invariant
                c <= count,
                consumed@ == Seq::new(c as nat, |i: int| x),
            decreases count - c,
        {
            consumed.push(x);
            assert(consumed@ =~= Seq::new((c + 1) as nat, |i: int| x));
            c += 1;
        }
        let ghost before = r@.map_values(|pb: PlaceBinding| pb@);
        let pb = PlaceBinding { place_id, consumed, count };
        r.push(pb);
        proof {
            assert(r@.map_values(|pb: PlaceBinding| pb@) =~= before.push(pb@));
            assert(members@.take(i + 1) =~= members@.take(i as int).push(members@[i as int]));
        }
        i += 1;
    }
    assert(members@.take(i as int) =~= members@);
    r
}

/// One place binding per member place, each taking all of `ts`.
fn token_set_bindings(members: &Vec<(u128, usize, bool)>, ts: &Vec<OCToken>) -> (r: Vec<PlaceBinding>)
    ensures
        r@.map_values(|pb: PlaceBinding| pb@) == members@.map_values(
            |g: (u128, usize, bool)| PlaceBindingView { place_id: g.0, consumed: ts@, count: g.1 },
        ),
{
    let mut r: Vec<PlaceBinding> = Vec::new();
    let mut i: usize = 0;
    while i < members.len()
        invariant
            i <= members.len(),
            r@.map_values(|pb: PlaceBinding| pb@) == members@.take(i as int).map_values(
                |g: (u128, usize, bool)| PlaceBindingView { place_id: g.0, consumed: ts@, count: g.1 },
            ),
        decreases members.len() - i,
    {
        let (place_id, count, _) = members[i];
        let consumed = ts.clone();
        assert(consumed@ =~= ts@);
        let ghost before = r@.map_values(|pb: PlaceBinding| pb@);
        let pb = PlaceBinding { place_id, consumed, count };
        r.push(pb);
        proof {
            assert(r@.map_values(|pb: PlaceBinding| pb@) =~= before.push(pb@));
            assert(members@.take(i + 1) =~= members@.take(i as int).push(members@[i as int]));
        }
        i += 1;
    }
    assert(members@.take(i as int) =~= members@);
    r
}

/// One entry of object type `ty` per token of `tokens`, binding that token alone.
fn single_token_options(ty: &String, members: &Vec<(u128, usize, bool)>, tokens: &Vec<OCToken>) -> (r: Vec<ObjectBindingInfo>)
    ensures
        r@.map_values(|i: ObjectBindingInfo| i@) == tokens@.map_values(
            |x: OCToken|
                ObjectBindingInfoView {
                    object_type: ty@,
                    tokens: seq![x],
                    place_bindings: members@.map_values(
                        |g: (u128, usize, bool)|
                            PlaceBindingView { place_id: g.0, consumed: Seq::new(g.1 as nat, |i: int| x), count: g.1 },
                    ),
                },
        ),
{
    let mut r: Vec<ObjectBindingInfo> = Vec::new();
    let mut i: usize = 0;
    while i < tokens.len()
        invariant
            i <= tokens.len(),
            r@.map_values(|i: ObjectBindingInfo| i@) == tokens@.take(i as int).map_values(
                |x: OCToken|
                    ObjectBindingInfoView {
                        object_type: ty@,
                        tokens: seq![x],
                        place_bindings: members@.map_values(
                            |g: (u128, usize, bool)|
                                PlaceBindingView { place_id: g.0, consumed: Seq::new(g.1 as nat, |i: int| x), count: g.1 },
                        ),
                    },
            ),
        decreases tokens.len() - i,
    {
        let x = tokens[i];
        let mut one: Vec<OCToken> = Vec::new();
        one.push(x);
        assert(one@ =~= seq![x]);
        let info = ObjectBindingInfo {
            object_type: ty.clone(),
            tokens: one,
            place_bindings: single_token_bindings(members, x),
        };
        let ghost before = r@.map_values(|i: ObjectBindingInfo| i@);
        r.push(info);
        proof {
            assert(r@.map_values(|i: ObjectBindingInfo| i@) =~= before.push(info@));
            assert(tokens@.take(i + 1) =~= tokens@.take(i as int).push(x));
        }
        i += 1;
    }
    assert(tokens@.take(i as int) =~= tokens@);
    r
}

/// One entry of object type `ty` per token set of `sets`, binding all of its tokens.
fn token_set_options(ty: &String, members: &Vec<(u128, usize, bool)>, sets: &Vec<Vec<OCToken>>) -> (r: Vec<ObjectBindingInfo>)
    ensures
        r@.map_values(|i: ObjectBindingInfo| i@) == sets@.map_values(|v: Vec<OCToken>| v@).map_values(
            |ts: Seq<OCToken>|
                ObjectBindingInfoView {
                    object_type: ty@,
                    tokens: ts,
                    place_bindings: members@.map_values(
                        |g: (u128, usize, bool)| PlaceBindingView { place_id: g.0, consumed: ts, count: g.1 },
                    ),
                },
        ),
{
    let ghost views = sets@.map_values(|v: Vec<OCToken>| v@);
    let mut r: Vec<ObjectBindingInfo> = Vec::new();
    let mut i: usize = 0;
    while i < sets.len()
        invariant
            i <= sets.len(),
            views == sets@.map_values(|v: Vec<OCToken>| v@),
            r@.map_values(|i: ObjectBindingInfo| i@) == views.take(i as int).map_values(
                |ts: Seq<OCToken>|
                    ObjectBindingInfoView {
                        object_type: ty@,
                        tokens: ts,
                        place_bindings: members@.map_values(
                            |g: (u128, usize, bool)| PlaceBindingView { place_id: g.0, consumed: ts, count: g.1 },
                        ),
                    },
            ),
        decreases sets.len() - i,
    {
        let ts = sets[i].clone();
        assert(ts@ =~= sets@[i as int]@);
        let place_bindings = token_set_bindings(members, &ts);
        let info = ObjectBindingInfo { object_type: ty.clone(), tokens: ts, place_bindings };
        let ghost before = r@.map_values(|i: ObjectBindingInfo| i@);
        r.push(info);
        proof {
            assert(r@.map_values(|i: ObjectBindingInfo| i@) =~= before.push(info@));
            assert(views.take(i + 1) =~= views.take(i as int).push(views[i as int]));
        }
        i += 1;
    }
    assert(views.take(i as int) =~= views);
    r
}

proof fn lemma_min_count_pos(bags: Seq<Multiset<OCToken>>, x: OCToken)
    ensures
        min_count(bags, x) > 0 <==> (bags.len() > 0 && forall|i: int| 0 <= i < bags.len() ==> #[trigger] bags[i].count(x) > 0),
    decreases bags.len(),
{
    if bags.len() > 1 {
        lemma_min_count_pos(bags.drop_last(), x);
        if min_count(bags, x) > 0 {
            assert forall|i: int| 0 <= i < bags.len() implies #[trigger] bags[i].count(x) > 0 by {
                if i < bags.len() - 1 {
                    assert(bags.drop_last()[i] == bags[i]);
                }
            }
        }
        if forall|i: int| 0 <= i < bags.len() ==> #[trigger] bags[i].count(x) > 0 {
            assert forall|i: int| 0 <= i < bags.drop_last().len() implies #[trigger] bags.drop_last()[i].count(x) > 0 by {
                assert(bags[i].count(x) > 0);
            }
            assert(bags[bags.len() - 1].count(x) > 0);
        }
    } else if bags.len() == 1 {
        if bags[0].count(x) > 0 {
            assert forall|i: int| 0 <= i < bags.len() implies #[trigger] bags[i].count(x) > 0 by {
            }
        }
    }
}

/// A finite set listed in some order, each element once.
proof fn lemma_to_seq_enumerates(s: Set<OCToken>)
    requires
        s.finite(),
    ensures
        enumerates(s.to_seq(), s),
    decreases s.len(),
{
    broadcast use vstd::set::group_set_axioms;
    broadcast use vstd::set_lib::lemma_set_empty_equivalency_len;

    s.lemma_to_seq_to_set_id();
    lemma_to_seq_len(s);
    s.to_seq().lemma_no_dup_set_cardinality();
}

proof fn lemma_to_seq_len(s: Set<OCToken>)
    requires
        s.finite(),
    ensures
        s.to_seq().len() == s.len(),
    decreases s.len(),
{
    broadcast use vstd::set::group_set_axioms;
    broadcast use vstd::set_lib::lemma_set_empty_equivalency_len;

    if s.len() > 0 {
        let x = s.choose();
        lemma_to_seq_len(s.remove(x));
    }
}

/// A transition with an input arc has an input place, and then an object type.
proof fn lemma_inputs_nonempty(net: ObjectCentricPetriNet, arcs: Seq<InputArc>)
    ensures
        arcs.len() > 0 <==> input_places(arcs).len() > 0,
        input_places(arcs).len() > 0 <==> input_types(net, input_places(arcs)).len() > 0,
{
    if arcs.len() > 0 {
        lemma_input_places_cover(arcs, arcs[arcs.len() - 1].source_place_id);
        assert(arcs[arcs.len() - 1].source_place_id == arcs[arcs.len() - 1].source_place_id);
    }
    if input_places(arcs).len() > 0 {
        let p = input_places(arcs)[0];
        assert(input_places(arcs).contains(p));
        lemma_input_places_cover(arcs, p);
    }
    lemma_input_types_nonempty(net, input_places(arcs));
}

proof fn lemma_input_types_nonempty(net: ObjectCentricPetriNet, places: Seq<u128>)
    ensures
        places.len() > 0 <==> input_types(net, places).len() > 0,
    decreases places.len(),
{
    if places.len() > 0 {
        lemma_input_types_nonempty(net, places.drop_last());
    }
}

/// Every object type of the places is the type of one of them, and each type is listed once.
proof fn lemma_input_types_cover(net: ObjectCentricPetriNet, places: Seq<u128>, ty: Seq<char>)
    ensures
        input_types(net, places).contains(ty) <==> exists|i: int| 0 <= i < places.len() && place_type(net, places[i]) == ty,
        input_types(net, places).no_duplicates(),
    decreases places.len(),
{
    if places.len() > 0 {
        let pre = places.drop_last();
        lemma_input_types_cover(net, pre, ty);
        let prev = input_types(net, pre);
        let last = place_type(net, places.last());
        if exists|i: int| 0 <= i < places.len() && place_type(net, places[i]) == ty {
            let i = choose|i: int| 0 <= i < places.len() && place_type(net, places[i]) == ty;
            if i < pre.len() {
                assert(place_type(net, pre[i]) == ty);
                let q = choose|q: int| 0 <= q < prev.len() && prev[q] == ty;
                assert(input_types(net, places)[q] == ty);
            } else if !prev.contains(last) {
                assert(input_types(net, places)[prev.len() as int] == ty);
            }
        }
        if input_types(net, places).contains(ty) {
            if prev.contains(ty) {
                let i = choose|i: int| 0 <= i < pre.len() && place_type(net, pre[i]) == ty;
                assert(places[i] == pre[i]);
            } else {
                assert(places[places.len() - 1] == places.last());
            }
        }
        if !prev.contains(last) {
            assert forall|a: int, b: int| 0 <= a < b < prev.push(last).len() implies prev.push(last)[a] != prev.push(last)[b] by {
                if b == prev.len() {
                    assert(prev.contains(prev[a]));
                }
            }
        }
    }
}

proof fn lemma_filter_from<A>(s: Seq<A>, pred: spec_fn(A) -> bool)
    ensures
        forall|i: int| 0 <= i < s.filter(pred).len() ==> s.contains(#[trigger] s.filter(pred)[i]) && pred(s.filter(pred)[i]),
    decreases s.len(),
{
    reveal_with_fuel(Seq::filter, 1);
    if s.len() > 0 {
        lemma_filter_from(s.drop_last(), pred);
        let f = s.filter(pred);
        let fp = s.drop_last().filter(pred);
        assert forall|i: int| 0 <= i < f.len() implies s.contains(#[trigger] f[i]) && pred(f[i]) by {
            if i < fp.len() {
                assert(f[i] == fp[i]);
                let j = choose|j: int| 0 <= j < s.drop_last().len() && s.drop_last()[j] == fp[i];
                assert(s[j] == f[i]);
            } else {
                assert(f[i] == s.last());
                assert(s[s.len() - 1] == s.last());
            }
        }
    }
}

/// What the groups of input places say of each place.
pub open spec fn groups_describe(arcs: Seq<InputArc>, groups: Seq<(u128, usize, bool)>) -> bool {
    &&& groups.map_values(|g: (u128, usize, bool)| g.0) == input_places(arcs)
    &&& forall|i: int|
        0 <= i < groups.len() ==> {
            &&& (#[trigger] groups[i]).1 == arc_count(arcs, groups[i].0)
            &&& groups[i].2 == has_variable_arc(arcs, groups[i].0)
        }
}

/// The member places of one object type, as the groups describe them.
proof fn lemma_members(net: ObjectCentricPetriNet, arcs: Seq<InputArc>, groups: Seq<(u128, usize, bool)>, ty: Seq<char>)
    requires
        groups_describe(arcs, groups),
    ensures
        ({
            let members = groups_of_type(net, groups, ty);
            &&& members.map_values(|g: (u128, usize, bool)| g.0) == places_of_type(net, input_places(arcs), ty)
            &&& forall|i: int|
                0 <= i < members.len() ==> {
                    &&& (#[trigger] members[i]).1 == arc_count(arcs, members[i].0)
                    &&& members[i].2 == has_variable_arc(arcs, members[i].0)
                    &&& place_type(net, members[i].0) == ty
                    &&& input_places(arcs).contains(members[i].0)
                    &&& arc_count(arcs, members[i].0) > 0
                }
            &&& (exists|i: int| 0 <= i < members.len() && (#[trigger] members[i]).2) <==> type_is_variable(net, arcs, ty)
            &&& input_types(net, input_places(arcs)).contains(ty) ==> members.len() > 0
        }),
{
    let members = groups_of_type(net, groups, ty);
    let pred = |g: (u128, usize, bool)| place_type(net, g.0) == ty;
    lemma_filter_keys(net, groups, ty);
    lemma_filter_from(groups, pred);
    let keys = groups.map_values(|g: (u128, usize, bool)| g.0);
    assert forall|i: int| 0 <= i < members.len() implies {
        &&& (#[trigger] members[i]).1 == arc_count(arcs, members[i].0)
        &&& members[i].2 == has_variable_arc(arcs, members[i].0)
        &&& place_type(net, members[i].0) == ty
        &&& input_places(arcs).contains(members[i].0)
        &&& arc_count(arcs, members[i].0) > 0
    } by {
        assert(groups.contains(members[i]));
        let j = choose|j: int| 0 <= j < groups.len() && groups[j] == members[i];
        assert(keys[j] == members[i].0);
        lemma_input_places_cover(arcs, members[i].0);
    }
    if type_is_variable(net, arcs, ty) {
        let a = choose|a: int| 0 <= a < arcs.len() && place_type(net, arcs[a].source_place_id) == ty && arcs[a].variable;
        let p = arcs[a].source_place_id;
        lemma_input_places_cover(arcs, p);
        let j = choose|j: int| 0 <= j < keys.len() && keys[j] == p;
        assert(groups[j].0 == p);
        assert(has_variable_arc(arcs, p));
        assert(pred(groups[j]));
        groups.lemma_filter_contains(pred, j);
        let q = choose|q: int| 0 <= q < members.len() && members[q] == groups[j];
        assert(members[q].2);
    }
    if exists|i: int| 0 <= i < members.len() && (#[trigger] members[i]).2 {
        let i = choose|i: int| 0 <= i < members.len() && (#[trigger] members[i]).2;
        let a = choose|a: int| 0 <= a < arcs.len() && arcs[a].source_place_id == members[i].0 && arcs[a].variable;
        assert(place_type(net, arcs[a].source_place_id) == ty);
    }
    if input_types(net, input_places(arcs)).contains(ty) {
        lemma_input_types_cover(net, input_places(arcs), ty);
        let i = choose|i: int| 0 <= i < input_places(arcs).len() && place_type(net, input_places(arcs)[i]) == ty;
        assert(keys[i] == input_places(arcs)[i]);
        assert(pred(groups[i]));
        groups.lemma_filter_contains(pred, i);
    }
}

/// The tokens common to the filtered bags of a type's places are the type's support.
proof fn lemma_common_support(
    m: Map<u128, Multiset<OCToken>>,
    net: ObjectCentricPetriNet,
    arcs: Seq<InputArc>,
    groups: Seq<(u128, usize, bool)>,
    ty: Seq<char>,
    fbags: Seq<Multiset<OCToken>>,
)
    requires
        groups_describe(arcs, groups),
        input_types(net, input_places(arcs)).contains(ty),
        fbags.len() == groups_of_type(net, groups, ty).len(),
        forall|q: int, x: OCToken|
            0 <= q < fbags.len() ==> #[trigger] fbags[q].count(x) == if tokens_at(m, groups_of_type(net, groups, ty)[q].0).count(x)
                >= groups_of_type(net, groups, ty)[q].1 {
                tokens_at(m, groups_of_type(net, groups, ty)[q].0).count(x)
            } else {
                0
            },
    ensures
        forall|x: OCToken| min_count(fbags, x) > 0 <==> #[trigger] type_support(m, net, arcs, ty).contains(x),
        type_support(m, net, arcs, ty).finite(),
{
    let members = groups_of_type(net, groups, ty);
    lemma_members(net, arcs, groups, ty);
    let places = places_of_type(net, input_places(arcs), ty);
    assert(places.len() == members.len());
    assert forall|x: OCToken| min_count(fbags, x) > 0 <==> #[trigger] type_support(m, net, arcs, ty).contains(x) by {
        lemma_min_count_pos(fbags, x);
        if min_count(fbags, x) > 0 {
            assert forall|j: int| 0 <= j < places.len() implies #[trigger] tokens_at(m, places[j]).count(x) >= arc_count(arcs, places[j]) by {
                assert(places[j] == members[j].0);
                assert(fbags[j].count(x) > 0);
            }
        }
        if type_support(m, net, arcs, ty).contains(x) {
            assert forall|q: int| 0 <= q < fbags.len() implies #[trigger] fbags[q].count(x) > 0 by {
                assert(places[q] == members[q].0);
                assert(tokens_at(m, places[q]).count(x) >= arc_count(arcs, places[q]));
            }
        }
    }
    let dom0 = tokens_at(m, members[0].0).dom();
    assert(type_support(m, net, arcs, ty).subset_of(dom0)) by {
        assert forall|x: OCToken| type_support(m, net, arcs, ty).contains(x) implies dom0.contains(x) by {
            assert(places[0] == members[0].0);
            assert(tokens_at(m, places[0]).count(x) >= arc_count(arcs, places[0]));
        }
    }
    vstd::set_lib::lemma_set_subset_finite(dom0, type_support(m, net, arcs, ty));
}

proof fn lemma_support_finite(
    m: Map<u128, Multiset<OCToken>>,
    net: ObjectCentricPetriNet,
    arcs: Seq<InputArc>,
    groups: Seq<(u128, usize, bool)>,
    ty: Seq<char>,
)
    requires
        groups_describe(arcs, groups),
        input_types(net, input_places(arcs)).contains(ty),
    ensures
        type_support(m, net, arcs, ty).finite(),
{
    let members = groups_of_type(net, groups, ty);
    lemma_members(net, arcs, groups, ty);
    let places = places_of_type(net, input_places(arcs), ty);
    assert(places.len() == members.len());
    let dom0 = tokens_at(m, members[0].0).dom();
    assert(type_support(m, net, arcs, ty).subset_of(dom0)) by {
        assert forall|x: OCToken| type_support(m, net, arcs, ty).contains(x) implies dom0.contains(x) by {
            assert(places[0] == members[0].0);
            assert(tokens_at(m, places[0]).count(x) >= arc_count(arcs, places[0]));
        }
    }
    vstd::set_lib::lemma_set_subset_finite(dom0, type_support(m, net, arcs, ty));
}

/// Whether each variable object type of `t` has few enough tokens to list all their subsets.
pub open spec fn variable_supports_fit(m: Map<u128, Multiset<OCToken>>, net: ObjectCentricPetriNet, t: Transition) -> bool {
    let types = transition_types(net, t);
    forall|j: int|
        0 <= j < types.len() && type_is_variable(net, t.input_arcs@, #[trigger] types[j]) ==> type_support(
            m,
            net,
            t.input_arcs@,
            types[j],
        ).len() < usize::BITS
}

/// `members` lists the input places of object type `ty` with their arc counts.
pub open spec fn members_describe(
    net: ObjectCentricPetriNet,
    arcs: Seq<InputArc>,
    ty: Seq<char>,
    members: Seq<(u128, usize, bool)>,
) -> bool {
    &&& members.map_values(|g: (u128, usize, bool)| g.0) == places_of_type(net, input_places(arcs), ty)
    &&& forall|w: int| 0 <= w < members.len() ==> (#[trigger] members[w]).1 == arc_count(arcs, members[w].0)
}

impl Marking {
    /// The input places of object type `ty`, whether the type is variable, and the
    /// tokens common to all those places (at least once per arc of each place).
    fn type_common_tokens(&self, transition: &Transition, groups: &Vec<(u128, usize, bool)>, ty: &String) -> (r: (
        Vec<(u128, usize, bool)>,
        bool,
        HashBag<OCToken>,
    ))
        requires
            groups_describe(transition.input_arcs@, groups@),
            forall|q: int| 0 <= q < groups@.len() ==> self.net().has_place(#[trigger] groups@[q].0),
            transition_types(self.net(), *transition).contains(ty@),
        ensures
            members_describe(self.net(), transition.input_arcs@, ty@, r.0@),
            r.1 == type_is_variable(self.net(), transition.input_arcs@, ty@),
            bag_contents(r.2).dom() == type_support(self.tokens(), self.net(), transition.input_arcs@, ty@),
    {
        let ghost tyv = ty@;
        let ghost m = self.tokens();
        let ghost net = self.net();
        let ghost arcs = transition.input_arcs@;
        proof {
            lemma_members(net, arcs, groups@, tyv);
        }
        let members = self.type_members(&groups, ty);
        let mut bags: Vec<HashBag<OCToken>> = Vec::new();
        let mut variable = false;
        let mut k: usize = 0;
        while k < members.len()
            invariant
                k <= members.len(),
                m == self.tokens(),
                bags@.len() == k,
                forall|q: int, x: OCToken|
                    0 <= q < k ==> #[trigger] bag_contents(bags@[q]).count(x) == if tokens_at(m, members@[q].0).count(x)
                        >= members@[q].1 {
                        tokens_at(m, members@[q].0).count(x)
                    } else {
                        0
                    },
                variable == exists|q: int| 0 <= q < k && (#[trigger] members@[q]).2,
            decreases members.len() - k,
        {
            let bag = self.filtered_bag(&members[k].0, members[k].1);
            bags.push(bag);
            variable = variable || members[k].2;
            proof {
                if members@[k as int].2 {
                    assert(exists|q: int| 0 <= q < k + 1 && (#[trigger] members@[q]).2) by {
                        assert(members@[k as int].2);
                    }
                }
            }
            k += 1;
        }
        let common = intersect_hashbags(&bags);
        let ghost fbags = bags@.map_values(|b: HashBag<OCToken>| bag_contents(b));
        proof {
            lemma_common_support(m, net, arcs, groups@, tyv, fbags);
            assert(bag_contents(common).dom() =~= type_support(m, net, arcs, tyv)) by {
                assert forall|x: OCToken| bag_contents(common).dom().contains(x) <==> type_support(m, net, arcs, tyv).contains(x) by {
                    assert(bag_contents(common).count(x) == min_count(fbags, x));
                }
            }
        }
        (members, variable, common)
    }
}

/// The entries of a variable object type: one per nonempty subset of the common tokens.
fn variable_type_options(
    transition: &Transition,
    net: &ObjectCentricPetriNet,
    ty: &String,
    members: &Vec<(u128, usize, bool)>,
    common: &HashBag<OCToken>,
) -> (r: Vec<ObjectBindingInfo>)
    requires
        members_describe(*net, transition.input_arcs@, ty@, members@),
        type_is_variable(*net, transition.input_arcs@, ty@),
        bag_contents(*common).dom().len() < usize::BITS,
    ensures
        exists|e: Seq<OCToken>|
            enumerates(e, bag_contents(*common).dom()) && r@.map_values(|i: ObjectBindingInfo| i@) == type_options(
                *net,
                transition.input_arcs@,
                ty@,
                e,
            ),
{
    let ghost arcs = transition.input_arcs@;
    let ghost tyv = ty@;
    let mut power_sets = power_set(common);
    let ghost e = choose|e: Seq<OCToken>|
        enumerates(e, bag_contents(*common).dom()) && power_sets@.map_values(|v: Vec<OCToken>| v@) == subsets_by_mask(e);
    proof {
        e.unique_seq_to_set();
        let n = e.len() as usize;
        assert(n < usize::BITS);
        assert((1usize << n) >= 1usize) by (bit_vector)
            requires
                n < usize::BITS,
        ;
        assert(subsets_by_mask(e).len() == (1usize << n) as nat);
        assert(power_sets@.len() == power_sets@.map_values(|v: Vec<OCToken>| v@).len());
    }
    let ghost before = power_sets@.map_values(|v: Vec<OCToken>| v@);
    power_sets.swap_remove(0);
    proof {
        assert(power_sets@.map_values(|v: Vec<OCToken>| v@) =~= swap_out_first(before));
    }
    let options = token_set_options(ty, members, &power_sets);
    proof {
        let places_ty = places_of_type(*net, input_places(arcs), tyv);
        let mv = members@;
        let subs = swap_out_first(subsets_by_mask(e));
        assert(options@.map_values(|i: ObjectBindingInfo| i@) =~= type_options(*net, arcs, tyv, e)) by {
            assert forall|q: int| #![trigger subs[q]] 0 <= q < subs.len() implies
                mv.map_values(|g: (u128, usize, bool)| PlaceBindingView { place_id: g.0, consumed: subs[q], count: g.1 })
                =~= places_ty.map_values(|p: u128| PlaceBindingView { place_id: p, consumed: subs[q], count: arc_count(arcs, p) as usize }) by {
                assert forall|w: int| #![trigger mv[w]] 0 <= w < mv.len() implies mv[w].1 == arc_count(arcs, places_ty[w]) as usize by {
                    assert(places_ty[w] == mv.map_values(|g: (u128, usize, bool)| g.0)[w]);
                }
            }
        }
    }
    options
}

/// The entries of a non-variable object type: one per common token.
fn single_type_options(
    transition: &Transition,
    net: &ObjectCentricPetriNet,
    ty: &String,
    members: &Vec<(u128, usize, bool)>,
    common: &HashBag<OCToken>,
) -> (r: Vec<ObjectBindingInfo>)
    requires
        members_describe(*net, transition.input_arcs@, ty@, members@),
        !type_is_variable(*net, transition.input_arcs@, ty@),
    ensures
        exists|e: Seq<OCToken>|
            enumerates(e, bag_contents(*common).dom()) && r@.map_values(|i: ObjectBindingInfo| i@) == type_options(
                *net,
                transition.input_arcs@,
                ty@,
                e,
            ),
{
    let ghost arcs = transition.input_arcs@;
    let ghost tyv = ty@;
    let tokens = distinct_tokens(common);
    let ghost e = tokens@;
    let options = single_token_options(ty, members, &tokens);
    proof {
        let places_ty = places_of_type(*net, input_places(arcs), tyv);
        let mv = members@;
        assert(options@.map_values(|i: ObjectBindingInfo| i@) =~= type_options(*net, arcs, tyv, e)) by {
            assert forall|q: int| #![trigger e[q]] 0 <= q < e.len() implies
                mv.map_values(|g: (u128, usize, bool)| PlaceBindingView { place_id: g.0, consumed: Seq::new(g.1 as nat, |i: int| e[q]), count: g.1 })
                =~= places_ty.map_values(|p: u128| PlaceBindingView { place_id: p, consumed: Seq::new(arc_count(arcs, p), |i: int| e[q]), count: arc_count(arcs, p) as usize }) by {
                assert forall|w: int| #![trigger mv[w]] 0 <= w < mv.len() implies mv[w].1 == arc_count(arcs, places_ty[w]) by {
                    assert(places_ty[w] == mv.map_values(|g: (u128, usize, bool)| g.0)[w]);
                }
            }
        }
    }
    options
}

impl Marking {
    /// The entries a firing can use for object type `ty` of `transition`; `None` where
    /// no token can be bound for it.
    fn type_binding_options(&self, transition: &Transition, groups: &Vec<(u128, usize, bool)>, ty: &String) -> (r: Option<Vec<ObjectBindingInfo>>)
        requires
            groups_describe(transition.input_arcs@, groups@),
            forall|q: int| 0 <= q < groups@.len() ==> self.net().has_place(#[trigger] groups@[q].0),
            transition_types(self.net(), *transition).contains(ty@),
            type_is_variable(self.net(), transition.input_arcs@, ty@) ==> type_support(
                self.tokens(),
                self.net(),
                transition.input_arcs@,
                ty@,
            ).len() < usize::BITS,
        ensures
            match r {
                None => type_support(self.tokens(), self.net(), transition.input_arcs@, ty@).is_empty(),
                Some(options) => {
                    &&& !type_support(self.tokens(), self.net(), transition.input_arcs@, ty@).is_empty()
                    &&& exists|e: Seq<OCToken>|
                        enumerates(e, type_support(self.tokens(), self.net(), transition.input_arcs@, ty@))
                            && options@.map_values(|i: ObjectBindingInfo| i@) == type_options(
                            self.net(),
                            transition.input_arcs@,
                            ty@,
                            e,
                        )
                },
            },
    {
        let ghost support = type_support(self.tokens(), self.net(), transition.input_arcs@, ty@);
        let (members, variable, common) = self.type_common_tokens(transition, groups, ty);
        if bag_is_empty(&common) {
            proof {
                vstd::multiset::lemma_multiset_empty_len(bag_contents(common));
                assert(support.is_empty()) by {
                    assert forall|x: OCToken| !support.contains(x) by {
                        assert(bag_contents(common).count(x) == 0);
                    }
                }
            }
            return None;
        }
        proof {
            assert(!support.is_empty()) by {
                let x = bag_contents(common).choose();
                vstd::multiset::lemma_multiset_empty_len(bag_contents(common));
                assert(bag_contents(common).count(x) > 0);
                assert(support.contains(x));
            }
        }
        if variable {
            Some(variable_type_options(transition, &*self.petri_net, ty, &members, &common))
        } else {
            Some(single_type_options(transition, &*self.petri_net, ty, &members, &common))
        }
    }
}

impl Marking {
    /// Returns all possible firing combinations for the given transition: for every
    /// object type of its input places, the tokens that lie in each input place of that
    /// type at least once per arc are candidates; a non-variable type binds one of them,
    /// a variable type any nonempty set of them; every combination over the types is a binding.
    #[verifier::spinoff_prover]
    #[verifier::rlimit(40)]
    pub fn get_firing_combinations(&self, transition: &Transition) -> (r: Vec<Binding>)
        requires
            transition_consistent(self.net(), *transition),
            variable_supports_fit(self.tokens(), self.net(), *transition),
        ensures
            exists|es: Seq<Seq<OCToken>>|
                support_listing(self.tokens(), self.net(), *transition, es) && r@.map_values(|b: Binding| b@)
                    == firing_bindings(self.tokens(), self.net(), *transition, es),
    {
        let ghost m = self.tokens();
        let ghost net = self.net();
        let ghost arcs = transition.input_arcs@;
        let ghost types_spec = transition_types(net, *transition);
        let groups = group_input_arcs(&transition.input_arcs);
        let mut places: Vec<u128> = Vec::new();
        let mut i: usize = 0;
        while i < groups.len()
            invariant
                i <= groups.len(),
                places@ == groups@.map_values(|g: (u128, usize, bool)| g.0).take(i as int),
            decreases groups.len() - i,
        {
            places.push(groups[i].0);
            assert(places@ =~= groups@.map_values(|g: (u128, usize, bool)| g.0).take(i + 1));
            i += 1;
        }
        proof {
            assert(places@ =~= input_places(arcs));
            assert forall|q: int| 0 <= q < places@.len() implies net.has_place(#[trigger] places@[q]) by {
                lemma_input_places_cover(arcs, places@[q]);
                assert(input_places(arcs).contains(places@[q]));
                let a = choose|a: int| 0 <= a < arcs.len() && arcs[a].source_place_id == places@[q];
                assert(net.has_place(arcs[a].source_place_id));
            }
            assert forall|q: int| 0 <= q < groups@.len() implies net.has_place(#[trigger] groups@[q].0) by {
                assert(places@[q] == groups@[q].0);
            }
        }
        let types = self.input_object_types(&places);
        proof {
            lemma_inputs_nonempty(net, arcs);
            lemma_input_types_cover(net, input_places(arcs), Seq::empty());
        }
        let mut obj_type_tokens: Vec<Vec<ObjectBindingInfo>> = Vec::new();
        let ghost mut es: Seq<Seq<OCToken>> = Seq::empty();
        let mut ti: usize = 0;
        while ti < types.len()
            invariant
                ti <= types.len(),
                m == self.tokens(),
                net == self.net(),
                arcs == transition.input_arcs@,
                types_spec == transition_types(net, *transition),
                types@.map_values(|s: String| s@) == types_spec,
                groups_describe(arcs, groups@),
                forall|q: int| 0 <= q < groups@.len() ==> net.has_place(#[trigger] groups@[q].0),
                variable_supports_fit(m, net, *transition),
                es.len() == ti,
                obj_type_tokens@.len() == ti,
                forall|j: int|
                    0 <= j < ti ==> enumerates(#[trigger] es[j], type_support(m, net, arcs, types_spec[j]))
                        && !type_support(m, net, arcs, types_spec[j]).is_empty(),
                forall|j: int|
                    0 <= j < ti ==> (#[trigger] obj_type_tokens@[j])@.map_values(|i: ObjectBindingInfo| i@)
                        == type_options(net, arcs, types_spec[j], es[j]),
            decreases types.len() - ti,
        {
            let ty = &types[ti];
            let ghost tyv = types_spec[ti as int];
            proof {
                assert(ty@ == tyv);
                assert(types_spec.contains(tyv));
            }
            let found = self.type_binding_options(transition, &groups, ty);
            let options = match found {
                None => {
                    let none: Vec<Binding> = Vec::new();
                    proof {
                        assert(firing_blocked(m, net, *transition));
                        let full = Seq::new(
                            types_spec.len(),
                            |j: int| if j < ti { es[j] } else { type_support(m, net, arcs, types_spec[j]).to_seq() },
                        );
                        assert forall|j: int| 0 <= j < types_spec.len() implies enumerates(#[trigger] full[j], type_support(m, net, arcs, types_spec[j])) by {
                            if j >= ti {
                                let tj = types_spec[j];
                                assert(types_spec.contains(tj));
                                lemma_support_finite(m, net, arcs, groups@, tj);
                                lemma_to_seq_enumerates(type_support(m, net, arcs, tj));
                            }
                        }
                        assert(support_listing(m, net, *transition, full));
                        assert(none@.map_values(|b: Binding| b@) =~= firing_bindings(m, net, *transition, full));
                    }
                    return none;
                },
                Some(options) => options,
            };
            let ghost e = choose|e: Seq<OCToken>|
                enumerates(e, type_support(m, net, arcs, tyv)) && options@.map_values(|i: ObjectBindingInfo| i@)
                    == type_options(net, arcs, tyv, e);
            obj_type_tokens.push(options);
            proof {
                es = es.push(e);
            }
            ti += 1;
        }
        if obj_type_tokens.len() == 0 {
            let none: Vec<Binding> = Vec::new();
            proof {
                assert(types_spec.len() == 0);
                assert(arcs.len() == 0);
                assert(support_listing(m, net, *transition, es));
                assert(none@.map_values(|b: Binding| b@) =~= firing_bindings(m, net, *transition, es));
            }
            return none;
        }
        let ghost pools = obj_type_tokens@.map_values(|p: Vec<ObjectBindingInfo>| p@);
        let ghost option_views = Seq::new(types_spec.len(), |j: int| type_options(net, arcs, types_spec[j], es[j]));
        proof {
            assert(pools.map_values(|p: Seq<ObjectBindingInfo>| p.map_values(|i: ObjectBindingInfo| i@)) =~= option_views);
            crate::combinatorics::lemma_product_map(pools, |i: ObjectBindingInfo| i@);
            assert(!firing_blocked(m, net, *transition)) by {
                assert forall|j: int| 0 <= j < types_spec.len() implies !(#[trigger] type_support(m, net, arcs, types_spec[j])).is_empty() by {
                    assert(enumerates(es[j], type_support(m, net, arcs, types_spec[j])));
                }
            }
        }
        let product = cartesian_product_iter(obj_type_tokens);
        let ghost spec = product_spec(pools);
        let ghost spec_views = product_spec(option_views);
        let mut result: Vec<Binding> = Vec::new();
        let ghost found = spec_views.map_values(
            |cv: Seq<ObjectBindingInfoView>| BindingView { transition_id: transition.id, infos: cv },
        );
        proof {
            assert(support_listing(m, net, *transition, es));
            assert(found =~= firing_bindings(m, net, *transition, es));
        }
        let mut c: usize = 0;
        while c < product.len()
            invariant
                c <= product.len(),
                support_listing(m, net, *transition, es),
                variable_supports_fit(m, net, *transition),
                found == firing_bindings(m, net, *transition, es),
                found == spec_views.map_values(
                    |cv: Seq<ObjectBindingInfoView>| BindingView { transition_id: transition.id, infos: cv },
                ),
                product@.len() == spec.len(),
                spec.map_values(|c: Seq<ObjectBindingInfo>| c.map_values(|i: ObjectBindingInfo| i@)) == spec_views,
                forall|a: int|
                    #![trigger product@[a]]
                    0 <= a < product@.len() ==> {
                        &&& product@[a]@.len() == spec[a].len()
                        &&& forall|j: int| 0 <= j < spec[a].len() ==> cloned::<ObjectBindingInfo>(spec[a][j], #[trigger] product@[a]@[j])
                    },
                result@.map_values(|b: Binding| b@) == spec_views.take(c as int).map_values(
                    |cv: Seq<ObjectBindingInfoView>| BindingView { transition_id: transition.id, infos: cv },
                ),
            decreases product.len() - c,
        {
            let combination = product[c].clone();
            proof {
                assert(combination@.map_values(|i: ObjectBindingInfo| i@) =~= spec_views[c as int]) by {
                    assert forall|j: int| 0 <= j < combination@.len() implies combination@[j]@ == spec_views[c as int][j] by {
                        assert(cloned::<ObjectBindingInfo>(product@[c as int]@[j], combination@[j]));
                        assert(cloned::<ObjectBindingInfo>(spec[c as int][j], product@[c as int]@[j]));
                    }
                }
            }
            proof {
                assert(found[c as int].infos == spec_views[c as int]);
                lemma_bindings_types_distinct(m, net, *transition, es, c as int);
            }
            let binding = Binding::from_combinations(transition.id, combination);
            let ghost before = result@.map_values(|b: Binding| b@);
            result.push(binding);
            proof {
                assert(result@.map_values(|b: Binding| b@) =~= before.push(binding@));
                assert(spec_views.take(c + 1) =~= spec_views.take(c as int).push(spec_views[c as int]));
            }
            c += 1;
        }
        proof {
            assert(spec_views.take(c as int) =~= spec_views);
            assert(support_listing(m, net, *transition, es));
            assert(result@.map_values(|b: Binding| b@) =~= firing_bindings(m, net, *transition, es));
        }
        result
    }
}

proof fn lemma_type_options_nonempty(net: ObjectCentricPetriNet, arcs: Seq<InputArc>, ty: Seq<char>, e: Seq<OCToken>)
    requires
        e.len() > 0,
        type_is_variable(net, arcs, ty) ==> e.len() < usize::BITS,
    ensures
        type_options(net, arcs, ty, e).len() > 0,
{
    if type_is_variable(net, arcs, ty) {
        let n = e.len() as usize;
        assert((1usize << n) >= 2usize) by (bit_vector)
            requires
                1 <= n < usize::BITS,
        ;
        assert(subsets_by_mask(e).len() == (1usize << n) as nat);
    }
}

/// Law: a transition has a binding exactly when it is not blocked, whatever listing of
/// the candidate tokens is used.
pub proof fn lemma_bindings_exist(
    m: Map<u128, Multiset<OCToken>>,
    net: ObjectCentricPetriNet,
    t: Transition,
    es: Seq<Seq<OCToken>>,
)
    requires
        support_listing(m, net, t, es),
        variable_supports_fit(m, net, t),
    ensures
        firing_bindings(m, net, t, es).len() > 0 <==> !firing_blocked(m, net, t),
{
    let types = transition_types(net, t);
    if !firing_blocked(m, net, t) {
        let pools = Seq::new(types.len(), |j: int| type_options(net, t.input_arcs@, types[j], es[j]));
        assert forall|j: int| 0 <= j < pools.len() implies (#[trigger] pools[j]).len() > 0 by {
            let s = type_support(m, net, t.input_arcs@, types[j]);
            assert(enumerates(es[j], s));
            es[j].unique_seq_to_set();
            assert(!s.is_empty());
            if es[j].len() == 0 {
                assert(es[j].to_set() =~= Set::<OCToken>::empty());
            }
            lemma_type_options_nonempty(net, t.input_arcs@, types[j], es[j]);
        }
        lemma_product_nonempty(pools);
    }
}

/// Every item of a masked subsequence is an item of the sequence.
proof fn lemma_mask_subseq_from(items: Seq<OCToken>, mask: usize, y: OCToken)
    requires
        mask_subseq(items, mask).contains(y),
    ensures
        items.contains(y),
    decreases items.len(),
{
    if items.len() > 0 {
        let prev = mask_subseq(items.drop_last(), mask);
        if prev.contains(y) {
            lemma_mask_subseq_from(items.drop_last(), mask, y);
            let q = choose|q: int| 0 <= q < items.drop_last().len() && items.drop_last()[q] == y;
            assert(items[q] == y);
        } else {
            assert(has_bit(mask, (items.len() - 1) as usize) && y == items.last());
            assert(items[items.len() - 1] == y);
        }
    }
}

/// Masks that agree on the bits of the positions of `items` pick the same items.
proof fn lemma_mask_subseq_agree(items: Seq<OCToken>, m1: usize, m2: usize)
    requires
        forall|j: usize| j < items.len() ==> #[trigger] has_bit(m1, j) == has_bit(m2, j),
    ensures
        mask_subseq(items, m1) == mask_subseq(items, m2),
    decreases items.len(),
{
    if items.len() > 0 {
        lemma_mask_subseq_agree(items.drop_last(), m1, m2);
        assert(has_bit(m1, (items.len() - 1) as usize) == has_bit(m2, (items.len() - 1) as usize));
    }
}

/// Every subset of the distinct items `items` is picked by some mask below `2^len`.
proof fn lemma_mask_for_subset(items: Seq<OCToken>, s: Set<OCToken>) -> (mask: usize)
    requires
        items.no_duplicates(),
        items.len() < usize::BITS,
        s.subset_of(items.to_set()),
    ensures
        (mask as nat) < ((1usize << items.len() as usize) as nat),
        mask_subseq(items, mask).to_set() == s,
    decreases items.len(),
{
    broadcast use vstd::set::group_set_axioms;

    if items.len() == 0 {
        assert(s =~= Set::<OCToken>::empty());
        assert(mask_subseq(items, 0).to_set() =~= s);
        assert((1usize << 0usize) == 1usize) by (bit_vector);
        0
    } else {
        let n = items.len() as usize;
        let pre = items.drop_last();
        let last = items.last();
        let rest = s.remove(last);
        assert(rest.subset_of(pre.to_set())) by {
            assert forall|y: OCToken| rest.contains(y) implies pre.to_set().contains(y) by {
                assert(items.to_set().contains(y));
                let q = choose|q: int| 0 <= q < items.len() && items[q] == y;
                if q == items.len() - 1 {
                    assert(y == last);
                }
                assert(pre[q] == y);
            }
        }
        assert(pre.no_duplicates()) by {
            assert forall|a: int, b: int| 0 <= a < b < pre.len() implies pre[a] != pre[b] by {
                assert(pre[a] == items[a] && pre[b] == items[b]);
            }
        }
        let low = lemma_mask_for_subset(pre, rest);
        let k = (n - 1) as usize;
        assert(low < (1usize << k));
        let bit = 1usize << k;
        let mask = if s.contains(last) { low | bit } else { low };
        assert((low | bit) < (1usize << n) && low < (1usize << n)) by (bit_vector)
            requires
                low < (1usize << k),
                bit == 1usize << k,
                k + 1 == n,
                n < usize::BITS,
        ;
        assert(has_bit(low | bit, k) && !has_bit(low, k)) by (bit_vector)
            requires
                low < (1usize << k),
                bit == 1usize << k,
                k < usize::BITS,
        ;
        assert forall|j: usize| j < pre.len() implies #[trigger] has_bit(mask, j) == has_bit(low, j) by {
            assert(((low | bit) & (1usize << j) != 0) == (low & (1usize << j) != 0)) by (bit_vector)
                requires
                    j < k,
                    bit == 1usize << k,
                    k < usize::BITS,
            ;
        }
        lemma_mask_subseq_agree(pre, mask, low);
        assert(mask_subseq(items, mask).to_set() =~= s) by {
            assert forall|y: OCToken| mask_subseq(items, mask).to_set().contains(y) <==> s.contains(y) by {
                let sub = mask_subseq(pre, low);
                if s.contains(last) {
                    assert(mask_subseq(items, mask) == sub.push(last));
                    if sub.push(last).contains(y) && y != last {
                        let q = choose|q: int| 0 <= q < sub.push(last).len() && sub.push(last)[q] == y;
                        assert(sub[q] == y);
                        assert(sub.to_set().contains(y));
                    }
                    if s.contains(y) && y != last {
                        assert(sub.to_set().contains(y));
                        let q = choose|q: int| 0 <= q < sub.len() && sub[q] == y;
                        assert(sub.push(last)[q] == y);
                    }
                    if y == last {
                        assert(sub.push(last)[sub.len() as int] == last);
                    }
                } else {
                    assert(mask_subseq(items, mask) == sub);
                    assert(rest =~= s);
                }
            }
        }
        mask
    }
}

/// An entry that a firing can use for type `ty` names `ty` and binds only tokens of the support.
proof fn lemma_option_enabled(
    m: Map<u128, Multiset<OCToken>>,
    net: ObjectCentricPetriNet,
    arcs: Seq<InputArc>,
    ty: Seq<char>,
    e: Seq<OCToken>,
    info: ObjectBindingInfoView,
    x: OCToken,
)
    requires
        enumerates(e, type_support(m, net, arcs, ty)),
        type_is_variable(net, arcs, ty) ==> e.len() < usize::BITS,
        type_options(net, arcs, ty, e).contains(info),
    ensures
        info.object_type == ty,
        info.tokens.contains(x) ==> type_support(m, net, arcs, ty).contains(x),
{
    let opts = type_options(net, arcs, ty, e);
    let places = places_of_type(net, input_places(arcs), ty);
    let i = choose|i: int| 0 <= i < opts.len() && opts[i] == info;
    if type_is_variable(net, arcs, ty) {
        let all = subsets_by_mask(e);
        let subsets = swap_out_first(all);
        assert(info == token_set_info(arcs, ty, places, subsets[i]));
        let n = e.len() as usize;
        assert((1usize << n) >= 1usize) by (bit_vector)
            requires
                n < usize::BITS,
        ;
        assert(all.len() == (1usize << n) as nat);
        if info.tokens.contains(x) {
            let src = if i == 0 { all.len() - 1 } else { i };
            let upd = all.update(0, all.last());
            assert(subsets.len() == all.len() - 1);
            assert(subsets[i] == upd[i]);
            assert(upd[i] == all[src]);
            assert(all.len() <= usize::MAX);
            assert(all[src] == mask_subseq(e, src as usize));
            lemma_mask_subseq_from(e, src as usize, x);
            assert(e.to_set().contains(x));
        }
    } else {
        assert(info == single_token_info(arcs, ty, places, e[i]));
        if info.tokens.contains(x) {
            assert(info.tokens[0] == e[i]);
            assert(e.to_set().contains(x));
        }
    }
}

/// Law: every binding that is found is enabled. It has one entry for each object type of
/// the transition's input places, the types being distinct, and each token it binds lies in every
/// input place of that type at least once per arc from that place to the transition.
pub proof fn lemma_bindings_enabled(
    m: Map<u128, Multiset<OCToken>>,
    net: ObjectCentricPetriNet,
    t: Transition,
    es: Seq<Seq<OCToken>>,
    k: int,
    j: int,
    x: OCToken,
)
    requires
        support_listing(m, net, t, es),
        variable_supports_fit(m, net, t),
        0 <= k < firing_bindings(m, net, t, es).len(),
        0 <= j < transition_types(net, t).len(),
    ensures
        firing_bindings(m, net, t, es)[k].transition_id == t.id,
        transition_types(net, t).no_duplicates(),
        firing_bindings(m, net, t, es)[k].infos.len() == transition_types(net, t).len(),
        firing_bindings(m, net, t, es)[k].infos[j].object_type == transition_types(net, t)[j],
        firing_bindings(m, net, t, es)[k].infos[j].tokens.contains(x) ==> enough_everywhere(
            m,
            t.input_arcs@,
            places_of_type(net, input_places(t.input_arcs@), transition_types(net, t)[j]),
            x,
        ),
{
    let types = transition_types(net, t);
    let arcs = t.input_arcs@;
    let pools = Seq::new(types.len(), |q: int| type_options(net, arcs, types[q], es[q]));
    let c = product_spec(pools)[k];
    assert(firing_bindings(m, net, t, es)[k] == BindingView { transition_id: t.id, infos: c });
    lemma_product_contains(pools, c);
    assert(product_spec(pools).contains(c));
    assert(pools[j].contains(c[j]));
    assert(enumerates(es[j], type_support(m, net, arcs, types[j])));
    es[j].unique_seq_to_set();
    lemma_option_enabled(m, net, arcs, types[j], es[j], c[j], x);
    lemma_input_types_cover(net, input_places(arcs), types[j]);
}

/// Each binding found has at most one entry per object type.
pub proof fn lemma_bindings_types_distinct(
    m: Map<u128, Multiset<OCToken>>,
    net: ObjectCentricPetriNet,
    t: Transition,
    es: Seq<Seq<OCToken>>,
    k: int,
)
    requires
        support_listing(m, net, t, es),
        variable_supports_fit(m, net, t),
        0 <= k < firing_bindings(m, net, t, es).len(),
    ensures
        types_distinct(firing_bindings(m, net, t, es)[k].infos),
{
    let infos = firing_bindings(m, net, t, es)[k].infos;
    let types = transition_types(net, t);
    let pools = Seq::new(types.len(), |q: int| type_options(net, t.input_arcs@, types[q], es[q]));
    let c = product_spec(pools)[k];
    assert(firing_bindings(m, net, t, es)[k] == BindingView { transition_id: t.id, infos: c });
    lemma_product_contains(pools, c);
    assert(product_spec(pools).contains(c));
    assert(infos.len() == types.len());
    assert forall|i: int, j: int| 0 <= i < j < infos.len() implies (#[trigger] infos[i]).object_type
        != (#[trigger] infos[j]).object_type by {
        lemma_bindings_enabled(m, net, t, es, k, i, OCToken { id: 0 });
        lemma_bindings_enabled(m, net, t, es, k, j, OCToken { id: 0 });
    }
}

/// Law: where no object type of the transition is bound through variable arcs, every
/// way to pick, for each type, one token that lies in each input place of the type at
/// least once per arc is among the bindings found.
pub proof fn lemma_single_bindings_complete(
    m: Map<u128, Multiset<OCToken>>,
    net: ObjectCentricPetriNet,
    t: Transition,
    es: Seq<Seq<OCToken>>,
    xs: Seq<OCToken>,
)
    requires
        support_listing(m, net, t, es),
        t.input_arcs@.len() > 0,
        xs.len() == transition_types(net, t).len(),
        forall|j: int|
            0 <= j < xs.len() ==> !type_is_variable(net, t.input_arcs@, transition_types(net, t)[j]) && type_support(
                m,
                net,
                t.input_arcs@,
                transition_types(net, t)[j],
            ).contains(#[trigger] xs[j]),
    ensures
        firing_bindings(m, net, t, es).contains(
            BindingView {
                transition_id: t.id,
                infos: Seq::new(
                    xs.len(),
                    |j: int|
                        single_token_info(
                            t.input_arcs@,
                            transition_types(net, t)[j],
                            places_of_type(net, input_places(t.input_arcs@), transition_types(net, t)[j]),
                            xs[j],
                        ),
                ),
            },
        ),
{
    let types = transition_types(net, t);
    let arcs = t.input_arcs@;
    let pools = Seq::new(types.len(), |q: int| type_options(net, arcs, types[q], es[q]));
    let c = Seq::new(
        xs.len(),
        |j: int| single_token_info(arcs, types[j], places_of_type(net, input_places(arcs), types[j]), xs[j]),
    );
    assert(!firing_blocked(m, net, t)) by {
        assert forall|j: int| 0 <= j < types.len() implies !type_support(m, net, arcs, #[trigger] types[j]).is_empty() by {
            assert(type_support(m, net, arcs, types[j]).contains(xs[j]));
        }
    }
    assert forall|j: int| 0 <= j < c.len() implies #[trigger] pools[j].contains(c[j]) by {
        let e = es[j];
        assert(enumerates(e, type_support(m, net, arcs, types[j])));
        assert(e.to_set().contains(xs[j]));
        let i = choose|i: int| 0 <= i < e.len() && e[i] == xs[j];
        let places = places_of_type(net, input_places(arcs), types[j]);
        assert(type_options(net, arcs, types[j], e)[i] == single_token_info(arcs, types[j], places, e[i]));
        assert(pools[j][i] == c[j]);
    }
    lemma_product_contains(pools, c);
    let q = choose|q: int| 0 <= q < product_spec(pools).len() && product_spec(pools)[q] == c;
    assert(firing_bindings(m, net, t, es)[q] == BindingView { transition_id: t.id, infos: c });
}

/// No item is picked by the empty mask.
proof fn lemma_mask_zero(items: Seq<OCToken>)
    ensures
        mask_subseq(items, 0) == Seq::<OCToken>::empty(),
    decreases items.len(),
{
    if items.len() > 0 {
        lemma_mask_zero(items.drop_last());
        let j = (items.len() - 1) as usize;
        assert(!has_bit(0, j)) by {
            assert(0usize & (1usize << j) == 0usize) by (bit_vector);
        }
    }
}

/// For a nonempty set of supported tokens (a single one where the type is not variable),
/// some entry that a firing can use for type `ty` binds exactly those tokens.
proof fn lemma_option_for(
    m: Map<u128, Multiset<OCToken>>,
    net: ObjectCentricPetriNet,
    arcs: Seq<InputArc>,
    ty: Seq<char>,
    e: Seq<OCToken>,
    s: Set<OCToken>,
)
    requires
        enumerates(e, type_support(m, net, arcs, ty)),
        type_is_variable(net, arcs, ty) ==> e.len() < usize::BITS,
        s.subset_of(type_support(m, net, arcs, ty)),
        !s.is_empty(),
        !type_is_variable(net, arcs, ty) ==> exists|x: OCToken| s == set![x],
    ensures
        exists|info: ObjectBindingInfoView| type_options(net, arcs, ty, e).contains(info) && info.tokens.to_set() == s,
{
    let opts = type_options(net, arcs, ty, e);
    let places = places_of_type(net, input_places(arcs), ty);
    if type_is_variable(net, arcs, ty) {
        let mask = lemma_mask_for_subset(e, s);
        let all = subsets_by_mask(e);
        let subsets = swap_out_first(all);
        let n = e.len() as usize;
        assert(all.len() == (1usize << n) as nat);
        assert(mask != 0) by {
            if mask == 0 {
                lemma_mask_zero(e);
                assert(mask_subseq(e, 0).to_set() =~= Set::<OCToken>::empty());
                let x = s.choose();
                assert(s.contains(x));
            }
        }
        assert(all[mask as int] == mask_subseq(e, mask));
        let idx = if mask as int == all.len() - 1 { 0 } else { mask as int };
        assert(subsets[idx] == all[mask as int]);
        let info = token_set_info(arcs, ty, places, all[mask as int]);
        assert(opts[idx] == info);
        assert(opts.contains(info));
    } else {
        let x = choose|x: OCToken| s == set![x];
        assert(s.contains(x));
        assert(e.to_set().contains(x));
        let i = choose|i: int| 0 <= i < e.len() && e[i] == x;
        let info = single_token_info(arcs, ty, places, x);
        assert(opts[i] == info);
        assert(opts.contains(info));
        assert(info.tokens.to_set() =~= s) by {
            assert(info.tokens == seq![x]);
            assert(seq![x][0] == x);
            assert(seq![x].contains(x));
            assert(seq![x].to_set().contains(x));
            assert forall|y: OCToken| seq![x].to_set().contains(y) implies y == x by {
                let q = choose|q: int| 0 <= q < 1 && seq![x][q] == y;
            }
        }
    }
}

/// The requirements on a choice of tokens per object type of `t`: each set is nonempty and
/// supported, and holds one token where the type's arcs are not variable.
pub open spec fn valid_choice(
    m: Map<u128, Multiset<OCToken>>,
    net: ObjectCentricPetriNet,
    t: Transition,
    chosen: Seq<Set<OCToken>>,
) -> bool {
    &&& chosen.len() == transition_types(net, t).len()
    &&& forall|j: int|
        0 <= j < chosen.len() ==> {
            &&& (#[trigger] chosen[j]).subset_of(type_support(m, net, t.input_arcs@, transition_types(net, t)[j]))
            &&& !chosen[j].is_empty()
            &&& !type_is_variable(net, t.input_arcs@, transition_types(net, t)[j]) ==> exists|x: OCToken| chosen[j] == set![x]
        }
}

/// One entry per object type that binds exactly the chosen tokens.
proof fn lemma_entries_for_choice(
    m: Map<u128, Multiset<OCToken>>,
    net: ObjectCentricPetriNet,
    t: Transition,
    es: Seq<Seq<OCToken>>,
    chosen: Seq<Set<OCToken>>,
) -> (c: Seq<ObjectBindingInfoView>)
    requires
        support_listing(m, net, t, es),
        variable_supports_fit(m, net, t),
        valid_choice(m, net, t, chosen),
    ensures
        c.len() == chosen.len(),
        forall|j: int|
            0 <= j < c.len() ==> type_options(net, t.input_arcs@, transition_types(net, t)[j], es[j]).contains(#[trigger] c[j])
                && c[j].tokens.to_set() == chosen[j],
{
    let types = transition_types(net, t);
    let arcs = t.input_arcs@;
    assert forall|j: int| #![trigger chosen[j]] 0 <= j < types.len() implies exists|info: ObjectBindingInfoView|
        #[trigger] type_options(net, arcs, types[j], es[j]).contains(info) && info.tokens.to_set() == chosen[j] by {
        assert(enumerates(es[j], type_support(m, net, arcs, types[j])));
        es[j].unique_seq_to_set();
        lemma_option_for(m, net, arcs, types[j], es[j], chosen[j]);
    }
    let c = Seq::new(
        types.len(),
        |j: int|
            choose|info: ObjectBindingInfoView|
                type_options(net, arcs, types[j], es[j]).contains(info) && info.tokens.to_set() == chosen[j],
    );
    assert forall|j: int| 0 <= j < c.len() implies type_options(net, arcs, types[j], es[j]).contains(#[trigger] c[j])
        && c[j].tokens.to_set() == chosen[j] by {
        assert(chosen[j] == chosen[j]);
    }
    c
}

/// Law: the bindings found are all the ways to fire. For every choice, per object type
/// of the transition's input places, of a nonempty set of tokens that lie in each input
/// place of the type at least once per arc (one token where the type's arcs are not
/// variable), some binding binds exactly those tokens for each type.
pub proof fn lemma_bindings_complete(
    m: Map<u128, Multiset<OCToken>>,
    net: ObjectCentricPetriNet,
    t: Transition,
    es: Seq<Seq<OCToken>>,
    chosen: Seq<Set<OCToken>>,
)
    requires
        support_listing(m, net, t, es),
        variable_supports_fit(m, net, t),
        t.input_arcs@.len() > 0,
        valid_choice(m, net, t, chosen),
    ensures
        exists|k: int|
            #![trigger firing_bindings(m, net, t, es)[k]]
            0 <= k < firing_bindings(m, net, t, es).len() && forall|j: int|
                0 <= j < chosen.len() ==> (#[trigger] firing_bindings(m, net, t, es)[k].infos[j]).tokens.to_set()
                    == chosen[j],
{
    let types = transition_types(net, t);
    let arcs = t.input_arcs@;
    let pools = Seq::new(types.len(), |q: int| type_options(net, arcs, types[q], es[q]));
    let c = lemma_entries_for_choice(m, net, t, es, chosen);
    assert forall|j: int| 0 <= j < c.len() implies #[trigger] pools[j].contains(c[j]) by {
        assert(type_options(net, arcs, types[j], es[j]).contains(c[j]));
    }
    assert(!firing_blocked(m, net, t)) by {
        assert forall|j: int| 0 <= j < types.len() implies !type_support(m, net, arcs, #[trigger] types[j]).is_empty() by {
            let x = chosen[j].choose();
            assert(chosen[j].contains(x));
            assert(type_support(m, net, arcs, types[j]).contains(x));
        }
    }
    lemma_product_contains(pools, c);
    let k = choose|k: int| 0 <= k < product_spec(pools).len() && product_spec(pools)[k] == c;
    assert(firing_bindings(m, net, t, es)[k] == BindingView { transition_id: t.id, infos: c });
    assert forall|j: int| 0 <= j < chosen.len() implies (#[trigger] firing_bindings(m, net, t, es)[k].infos[j]).tokens.to_set()
        == chosen[j] by {
        assert(c[j].tokens.to_set() == chosen[j]);
    }
}

/// What place bindings with distinct places take out of place `p`: what the one for `p`
/// takes, nothing where there is none.
proof fn lemma_place_bindings_removal(pbs: Seq<PlaceBindingView>, p: u128)
    requires
        forall|a: int, b: int| 0 <= a < b < pbs.len() ==> (#[trigger] pbs[a]).place_id != (#[trigger] pbs[b]).place_id,
    ensures
        (forall|i: int| 0 <= i < pbs.len() ==> (#[trigger] pbs[i]).place_id != p) ==> place_bindings_removal(pbs, p)
            == Multiset::<OCToken>::empty(),
        forall|i: int|
            0 <= i < pbs.len() && (#[trigger] pbs[i]).place_id == p ==> place_bindings_removal(pbs, p) == repeat_tokens(
                pbs[i].consumed,
                pbs[i].count,
            ),
    decreases pbs.len(),
{
    broadcast use vstd::multiset::group_multiset_axioms;

    if pbs.len() > 0 {
        let pre = pbs.drop_last();
        assert forall|a: int, b: int| 0 <= a < b < pre.len() implies (#[trigger] pre[a]).place_id != (#[trigger] pre[b]).place_id by {
            assert(pre[a] == pbs[a] && pre[b] == pbs[b]);
        }
        lemma_place_bindings_removal(pre, p);
        let last = pbs.last();
        if last.place_id == p {
            assert forall|i: int| 0 <= i < pre.len() implies (#[trigger] pre[i]).place_id != p by {
                assert(pre[i] == pbs[i]);
                assert(pbs[i].place_id != pbs[pbs.len() - 1].place_id);
            }
            assert(place_bindings_removal(pbs, p) =~= repeat_tokens(last.consumed, last.count));
            assert forall|i: int| 0 <= i < pbs.len() && (#[trigger] pbs[i]).place_id == p implies i == pbs.len() - 1 by {
                if i < pbs.len() - 1 {
                    assert(pbs[i].place_id != pbs[pbs.len() - 1].place_id);
                }
            }
        } else {
            assert(place_bindings_removal(pbs, p) =~= place_bindings_removal(pre, p));
            assert forall|i: int| 0 <= i < pbs.len() && (#[trigger] pbs[i]).place_id == p implies i < pre.len() && pre[i]
                == pbs[i] by {
                if i == pbs.len() - 1 {
                    assert(pbs[i] == last);
                }
            }
            if forall|i: int| 0 <= i < pbs.len() ==> (#[trigger] pbs[i]).place_id != p {
                assert forall|i: int| 0 <= i < pre.len() implies (#[trigger] pre[i]).place_id != p by {
                    assert(pre[i] == pbs[i]);
                }
            }
        }
    }
}

/// Each distinct token of the list, taken `q` times.
proof fn lemma_repeat_count(ts: Seq<OCToken>, q: usize, y: OCToken)
    ensures
        repeat_tokens(ts, q).count(y) == if ts.contains(y) { q as nat } else { 0nat },
    decreases ts.len(),
{
    broadcast use vstd::multiset::group_multiset_axioms;
    broadcast use vstd::seq_lib::lemma_seq_contains_after_push;

    if ts.len() > 0 {
        let pre = ts.drop_last();
        lemma_repeat_count(pre, q, y);
        lemma_copies_count(ts.last(), q as nat, y);
        assert(ts == pre.push(ts.last()));
    }
}

/// The places of one type among distinct places are distinct, and of that type.
proof fn lemma_places_of_type_distinct(net: ObjectCentricPetriNet, places: Seq<u128>, ty: Seq<char>)
    requires
        places.no_duplicates(),
    ensures
        places_of_type(net, places, ty).no_duplicates(),
        forall|i: int|
            0 <= i < places_of_type(net, places, ty).len() ==> place_type(net, #[trigger] places_of_type(net, places, ty)[i])
                == ty && places.contains(places_of_type(net, places, ty)[i]),
    decreases places.len(),
{
    reveal_with_fuel(Seq::filter, 1);
    if places.len() > 0 {
        let pre = places.drop_last();
        assert(pre.no_duplicates()) by {
            assert forall|a: int, b: int| 0 <= a < b < pre.len() implies pre[a] != pre[b] by {
                assert(pre[a] == places[a] && pre[b] == places[b]);
            }
        }
        lemma_places_of_type_distinct(net, pre, ty);
        let f = places_of_type(net, places, ty);
        let fp = places_of_type(net, pre, ty);
        assert forall|i: int| 0 <= i < fp.len() implies places.contains(#[trigger] fp[i]) by {
            let q = choose|q: int| 0 <= q < pre.len() && pre[q] == fp[i];
            assert(places[q] == fp[i]);
        }
        if place_type(net, places.last()) == ty {
            assert(f == fp.push(places.last()));
            assert forall|a: int, b: int| 0 <= a < b < f.len() implies f[a] != f[b] by {
                if b == fp.len() {
                    let q = choose|q: int| 0 <= q < pre.len() && pre[q] == fp[a];
                    assert(places[q] == fp[a]);
                    assert(places[q] != places[places.len() - 1]);
                }
            }
            assert forall|i: int| 0 <= i < f.len() implies place_type(net, #[trigger] f[i]) == ty && places.contains(f[i]) by {
                if i == fp.len() {
                    assert(places[places.len() - 1] == f[i]);
                } else {
                    assert(f[i] == fp[i]);
                }
            }
        } else {
            assert(f == fp);
        }
    }
}

/// The place bindings of an entry that a firing can use for type `ty`, place by place.
proof fn lemma_entry_places(
    m: Map<u128, Multiset<OCToken>>,
    net: ObjectCentricPetriNet,
    arcs: Seq<InputArc>,
    ty: Seq<char>,
    e: Seq<OCToken>,
    info: ObjectBindingInfoView,
)
    requires
        enumerates(e, type_support(m, net, arcs, ty)),
        type_is_variable(net, arcs, ty) ==> e.len() < usize::BITS,
        type_options(net, arcs, ty, e).contains(info),
    ensures
        info.place_bindings.len() == places_of_type(net, input_places(arcs), ty).len(),
        forall|q: int|
            0 <= q < info.place_bindings.len() ==> {
                let pl = places_of_type(net, input_places(arcs), ty)[q];
                &&& (#[trigger] info.place_bindings[q]).place_id == pl
                &&& repeat_tokens(info.place_bindings[q].consumed, info.place_bindings[q].count).subset_of(tokens_at(m, pl))
            },
{
    let places = places_of_type(net, input_places(arcs), ty);
    if places.len() > 0 {
        lemma_entry_place(m, net, arcs, ty, e, info, 0);
    } else {
        let opts = type_options(net, arcs, ty, e);
        let i = choose|i: int| 0 <= i < opts.len() && opts[i] == info;
        if type_is_variable(net, arcs, ty) {
            let subsets = swap_out_first(subsets_by_mask(e));
            assert(info == token_set_info(arcs, ty, places, subsets[i]));
        } else {
            assert(info == single_token_info(arcs, ty, places, e[i]));
        }
    }
    assert forall|q: int| 0 <= q < info.place_bindings.len() implies {
        let pl = places_of_type(net, input_places(arcs), ty)[q];
        &&& (#[trigger] info.place_bindings[q]).place_id == pl
        &&& repeat_tokens(info.place_bindings[q].consumed, info.place_bindings[q].count).subset_of(tokens_at(m, pl))
    } by {
        lemma_entry_place(m, net, arcs, ty, e, info, q);
        let pl = places[q];
        lemma_repeat_within(info.place_bindings[q].consumed, info.place_bindings[q].count, tokens_at(m, pl));
    }
}

/// Place bindings for the distinct places `places`, each taking only what lies there,
/// take from `p` only what lies there, and nothing where `p` is not among them.
proof fn lemma_place_bindings_take(m: Map<u128, Multiset<OCToken>>, places: Seq<u128>, pbs: Seq<PlaceBindingView>, p: u128)
    requires
        places.no_duplicates(),
        pbs.len() == places.len(),
        forall|q: int|
            0 <= q < pbs.len() ==> (#[trigger] pbs[q]).place_id == places[q] && repeat_tokens(pbs[q].consumed, pbs[q].count).subset_of(
                tokens_at(m, places[q]),
            ),
    ensures
        place_bindings_removal(pbs, p).subset_of(tokens_at(m, p)),
        !places.contains(p) ==> place_bindings_removal(pbs, p) == Multiset::<OCToken>::empty(),
{
    broadcast use vstd::multiset::group_multiset_axioms;

    assert forall|a: int, b: int| 0 <= a < b < pbs.len() implies (#[trigger] pbs[a]).place_id != (#[trigger] pbs[b]).place_id by {
        assert(pbs[a].place_id == places[a] && pbs[b].place_id == places[b]);
    }
    lemma_place_bindings_removal(pbs, p);
    if places.contains(p) {
        let q = choose|q: int| 0 <= q < places.len() && places[q] == p;
        assert(pbs[q].place_id == p);
    } else {
        assert forall|q: int| 0 <= q < pbs.len() implies (#[trigger] pbs[q]).place_id != p by {
            assert(pbs[q].place_id == places[q]);
        }
        assert(place_bindings_removal(pbs, p) =~= Multiset::<OCToken>::empty());
    }
}

/// An entry that a firing can use for type `ty` takes from place `p` only tokens that
/// lie there, and nothing at all where `p` is of another type.
proof fn lemma_option_takes_available(
    m: Map<u128, Multiset<OCToken>>,
    net: ObjectCentricPetriNet,
    t: Transition,
    ty: Seq<char>,
    e: Seq<OCToken>,
    info: ObjectBindingInfoView,
    p: u128,
)
    requires
        enumerates(e, type_support(m, net, t.input_arcs@, ty)),
        type_is_variable(net, t.input_arcs@, ty) ==> e.len() < usize::BITS,
        type_options(net, t.input_arcs@, ty, e).contains(info),
    ensures
        place_bindings_removal(info.place_bindings, p).subset_of(tokens_at(m, p)),
        place_type(net, p) != ty ==> place_bindings_removal(info.place_bindings, p) == Multiset::<OCToken>::empty(),
{
    let arcs = t.input_arcs@;
    let places = places_of_type(net, input_places(arcs), ty);
    lemma_input_places_cover(arcs, p);
    lemma_places_of_type_distinct(net, input_places(arcs), ty);
    lemma_entry_places(m, net, arcs, ty, e, info);
    lemma_place_bindings_take(m, places, info.place_bindings, p);
    if place_type(net, p) != ty {
        assert(!places.contains(p)) by {
            if places.contains(p) {
                let q = choose|q: int| 0 <= q < places.len() && places[q] == p;
                assert(place_type(net, places[q]) == ty);
            }
        }
    }
}

/// Taking `n` of each token of `ts` leaves enough where each of them lies `n` times.
proof fn lemma_repeat_within(ts: Seq<OCToken>, n: usize, have: Multiset<OCToken>)
    requires
        forall|y: OCToken| #[trigger] ts.contains(y) ==> have.count(y) >= n,
    ensures
        repeat_tokens(ts, n).subset_of(have),
{
    assert forall|y: OCToken| #[trigger] repeat_tokens(ts, n).count(y) <= have.count(y) by {
        lemma_repeat_count(ts, n, y);
    }
}

/// What an entry that a firing can use for type `ty` takes from the `q`-th input place of
/// the type: once per arc, tokens that lie there at least once per arc.
proof fn lemma_entry_place(
    m: Map<u128, Multiset<OCToken>>,
    net: ObjectCentricPetriNet,
    arcs: Seq<InputArc>,
    ty: Seq<char>,
    e: Seq<OCToken>,
    info: ObjectBindingInfoView,
    q: int,
)
    requires
        enumerates(e, type_support(m, net, arcs, ty)),
        type_is_variable(net, arcs, ty) ==> e.len() < usize::BITS,
        type_options(net, arcs, ty, e).contains(info),
        0 <= q < places_of_type(net, input_places(arcs), ty).len(),
    ensures
        info.place_bindings.len() == places_of_type(net, input_places(arcs), ty).len(),
        info.place_bindings[q].place_id == places_of_type(net, input_places(arcs), ty)[q],
        info.place_bindings[q].count == arc_count(arcs, places_of_type(net, input_places(arcs), ty)[q]) as usize,
        forall|y: OCToken|
            #[trigger] info.place_bindings[q].consumed.contains(y) ==> tokens_at(
                m,
                places_of_type(net, input_places(arcs), ty)[q],
            ).count(y) >= arc_count(arcs, places_of_type(net, input_places(arcs), ty)[q]),
{
    let opts = type_options(net, arcs, ty, e);
    let places = places_of_type(net, input_places(arcs), ty);
    let i = choose|i: int| 0 <= i < opts.len() && opts[i] == info;
    let pl = places[q];
    let support = type_support(m, net, arcs, ty);
    if type_is_variable(net, arcs, ty) {
        let all = subsets_by_mask(e);
        let n = e.len() as usize;
        assert((1usize << n) >= 1usize) by (bit_vector)
            requires
                n < usize::BITS,
        ;
        assert(all.len() == (1usize << n) as nat);
        let subsets = swap_out_first(all);
        let src = if i == 0 { all.len() - 1 } else { i };
        assert(subsets[i] == all.update(0, all.last())[i]);
        assert(subsets[i] == all[src]);
        let ts = mask_subseq(e, src as usize);
        assert(info == token_set_info(arcs, ty, places, subsets[i]));
        assert forall|y: OCToken| #[trigger] info.place_bindings[q].consumed.contains(y) implies tokens_at(m, pl).count(y)
            >= arc_count(arcs, pl) by {
            assert(info.place_bindings[q].consumed == ts);
            lemma_mask_subseq_from(e, src as usize, y);
            assert(e.to_set().contains(y));
            assert(support.contains(y));
        }
    } else {
        let x = e[i];
        assert(info == single_token_info(arcs, ty, places, x));
        assert(e.to_set().contains(x));
        assert(support.contains(x));
        assert forall|y: OCToken| #[trigger] info.place_bindings[q].consumed.contains(y) implies tokens_at(m, pl).count(y)
            >= arc_count(arcs, pl) by {
            let cons = info.place_bindings[q].consumed;
            let k = choose|k: int| 0 <= k < cons.len() && cons[k] == y;
            assert(y == x);
        }
    }
}


/// Where only the entry for the type of `p` takes anything from `p`, and each takes only
/// tokens that lie there, so do the first `n` entries together.
proof fn lemma_binding_removal_available(
    m: Map<u128, Multiset<OCToken>>,
    net: ObjectCentricPetriNet,
    types: Seq<Seq<char>>,
    c: Seq<ObjectBindingInfoView>,
    p: u128,
    n: int,
)
    requires
        types.no_duplicates(),
        c.len() == types.len(),
        0 <= n <= c.len(),
        forall|j: int|
            0 <= j < c.len() ==> place_bindings_removal((#[trigger] c[j]).place_bindings, p).subset_of(tokens_at(m, p)) && (
            place_type(net, p) != types[j] ==> place_bindings_removal(c[j].place_bindings, p) == Multiset::<
                OCToken,
            >::empty()),
    ensures
        binding_removal(c.take(n), p).subset_of(tokens_at(m, p)),
        (forall|j: int| 0 <= j < n ==> types[j] != place_type(net, p)) ==> binding_removal(c.take(n), p) == Multiset::<
            OCToken,
        >::empty(),
    decreases n,
{
    broadcast use vstd::multiset::group_multiset_axioms;

    if n == 0 {
        assert(binding_removal(c.take(0), p) =~= Multiset::<OCToken>::empty());
    } else {
        lemma_binding_removal_available(m, net, types, c, p, n - 1);
        assert(c.take(n).drop_last() =~= c.take(n - 1));
        assert(c.take(n).last() == c[n - 1]);
        let prev = binding_removal(c.take(n - 1), p);
        let here = place_bindings_removal(c[n - 1].place_bindings, p);
        assert(binding_removal(c.take(n), p) == prev.add(here));
        if types[n - 1] == place_type(net, p) {
            assert forall|j: int| 0 <= j < n - 1 implies types[j] != place_type(net, p) by {
                assert(types[j] != types[n - 1]);
            }
            assert(prev =~= Multiset::<OCToken>::empty());
            assert(prev.add(here) =~= here);
        } else {
            assert(c[n - 1] == c[n - 1]);
            assert(here =~= Multiset::<OCToken>::empty());
            assert(prev.add(here) =~= prev);
        }
    }
}

/// Law: every binding that is found takes from each place only tokens that lie there, so
/// firing it removes exactly what it takes.
pub proof fn lemma_bindings_take_available(
    m: Map<u128, Multiset<OCToken>>,
    net: ObjectCentricPetriNet,
    t: Transition,
    es: Seq<Seq<OCToken>>,
    k: int,
    p: u128,
)
    requires
        support_listing(m, net, t, es),
        variable_supports_fit(m, net, t),
        0 <= k < firing_bindings(m, net, t, es).len(),
    ensures
        binding_removal(firing_bindings(m, net, t, es)[k].infos, p).subset_of(tokens_at(m, p)),
{
    let types = transition_types(net, t);
    let arcs = t.input_arcs@;
    let pools = Seq::new(types.len(), |q: int| type_options(net, arcs, types[q], es[q]));
    let c = product_spec(pools)[k];
    assert(firing_bindings(m, net, t, es)[k] == BindingView { transition_id: t.id, infos: c });
    lemma_product_contains(pools, c);
    assert(product_spec(pools).contains(c));
    lemma_input_types_cover(net, input_places(arcs), place_type(net, p));
    assert forall|j: int| 0 <= j < c.len() implies place_bindings_removal((#[trigger] c[j]).place_bindings, p).subset_of(
        tokens_at(m, p),
    ) && (place_type(net, p) != types[j] ==> place_bindings_removal(c[j].place_bindings, p) == Multiset::<
        OCToken,
    >::empty()) by {
        assert(pools[j].contains(c[j]));
        assert(enumerates(es[j], type_support(m, net, arcs, types[j])));
        es[j].unique_seq_to_set();
        lemma_option_takes_available(m, net, t, types[j], es[j], c[j], p);
    }
    lemma_binding_removal_available(m, net, types, c, p, c.len() as int);
    assert(c.take(c.len() as int) =~= c);
}

/// Law: every place a found binding takes from holds tokens, so it has an entry.
pub proof fn lemma_bindings_places_present(
    m: Map<u128, Multiset<OCToken>>,
    net: ObjectCentricPetriNet,
    t: Transition,
    es: Seq<Seq<OCToken>>,
    k: int,
)
    requires
        support_listing(m, net, t, es),
        variable_supports_fit(m, net, t),
        0 <= k < firing_bindings(m, net, t, es).len(),
    ensures
        binding_places_present(m, firing_bindings(m, net, t, es)[k]),
{
    let types = transition_types(net, t);
    let arcs = t.input_arcs@;
    let pools = Seq::new(types.len(), |q: int| type_options(net, arcs, types[q], es[q]));
    let c = product_spec(pools)[k];
    assert(firing_bindings(m, net, t, es)[k] == BindingView { transition_id: t.id, infos: c });
    lemma_product_contains(pools, c);
    assert(product_spec(pools).contains(c));
    assert(!firing_blocked(m, net, t));
    assert forall|i: int, j: int| 0 <= i < c.len() && 0 <= j < c[i].place_bindings.len() implies m.contains_key(
        #[trigger] c[i].place_bindings[j].place_id,
    ) by {
        assert(pools[i].contains(c[i]));
        assert(enumerates(es[i], type_support(m, net, arcs, types[i])));
        es[i].unique_seq_to_set();
        assert(!type_support(m, net, arcs, types[i]).is_empty());
        lemma_entry_places_present(m, net, arcs, types[i], es[i], c[i], j);
    }
}

/// The places an entry for a type with candidate tokens takes from hold tokens.
proof fn lemma_entry_places_present(
    m: Map<u128, Multiset<OCToken>>,
    net: ObjectCentricPetriNet,
    arcs: Seq<InputArc>,
    ty: Seq<char>,
    e: Seq<OCToken>,
    info: ObjectBindingInfoView,
    j: int,
)
    requires
        enumerates(e, type_support(m, net, arcs, ty)),
        type_is_variable(net, arcs, ty) ==> e.len() < usize::BITS,
        type_options(net, arcs, ty, e).contains(info),
        !type_support(m, net, arcs, ty).is_empty(),
        0 <= j < info.place_bindings.len(),
    ensures
        m.contains_key(info.place_bindings[j].place_id),
{
    let x0 = type_support(m, net, arcs, ty).choose();
    assert(type_support(m, net, arcs, ty).contains(x0));
    lemma_entry_places(m, net, arcs, ty, e, info);
    let places = places_of_type(net, input_places(arcs), ty);
    assert(info.place_bindings[j].place_id == places[j]);
    let x = type_support(m, net, arcs, ty).choose();
    lemma_place_has_entry(m, net, arcs, ty, j, x);
}

/// An input place of a type with a candidate token holds that token.
proof fn lemma_place_has_entry(
    m: Map<u128, Multiset<OCToken>>,
    net: ObjectCentricPetriNet,
    arcs: Seq<InputArc>,
    ty: Seq<char>,
    j: int,
    x: OCToken,
)
    requires
        0 <= j < places_of_type(net, input_places(arcs), ty).len(),
        type_support(m, net, arcs, ty).contains(x),
    ensures
        m.contains_key(places_of_type(net, input_places(arcs), ty)[j]),
{
    let places = places_of_type(net, input_places(arcs), ty);
    let pl = places[j];
    lemma_input_places_cover(arcs, pl);
    lemma_places_of_type_distinct(net, input_places(arcs), ty);
    assert(input_places(arcs).contains(pl));
    lemma_input_places_cover(arcs, pl);
    assert(enough_everywhere(m, arcs, places, x));
    assert(tokens_at(m, places[j]).count(x) >= arc_count(arcs, places[j]));
}

impl Marking {
    /// Whether the transition can fire: some binding exists.
    pub fn is_enabled(&self, transition: &Transition) -> (r: bool)
        requires
            transition_consistent(self.net(), *transition),
            variable_supports_fit(self.tokens(), self.net(), *transition),
        ensures
            r == !firing_blocked(self.tokens(), self.net(), *transition),
    {
        let combinations = self.get_firing_combinations(transition);
        proof {
            let es = choose|es: Seq<Seq<OCToken>>|
                support_listing(self.tokens(), self.net(), *transition, es) && combinations@.map_values(|b: Binding| b@)
                    == firing_bindings(self.tokens(), self.net(), *transition, es);
            lemma_bindings_exist(self.tokens(), self.net(), *transition, es);
        }
        !combinations.is_empty()
    }
}

/// Every place of `m` holding tokens is a final place of `net`.
pub open spec fn tokens_only_in_final_places(m: Map<u128, Multiset<OCToken>>, net: ObjectCentricPetriNet) -> bool {
    forall|p: u128| #[trigger] m.contains_key(p) ==> (m[p].len() == 0 || net.place(p).final_place)
}

/// Some place of `m` holds a token.
pub open spec fn has_any_token(m: Map<u128, Multiset<OCToken>>) -> bool {
    exists|p: u128| #[trigger] m.contains_key(p) && m[p].len() > 0
}

/// Every place of `m` holding tokens is a place of `net`.
pub open spec fn places_known(m: Map<u128, Multiset<OCToken>>, net: ObjectCentricPetriNet) -> bool {
    forall|p: u128| #[trigger] m.contains_key(p) && m[p].len() > 0 ==> net.has_place(p)
}

impl Marking {
    /// Whether every token lies in a final place.
    pub fn is_final(&self) -> (r: bool)
        requires
            places_known(self.tokens(), self.net()),
        ensures
            r == tokens_only_in_final_places(self.tokens(), self.net()),
    {
        let ghost pairs = vstd::std_specs::hash::spec_hash_map_iter(&self.assignments).remaining();
        proof {
            vstd::std_specs::hash::axiom_spec_hash_map_iter(&self.assignments);
        }
        for entry in it: self.assignments.iter()
            invariant
                places_known(self.tokens(), self.net()),
                it.seq() == pairs,
                forall|i: int|
                    #![trigger pairs[i]]
                    0 <= i < pairs.len() ==> self.assignments@.contains_key(*pairs[i].0)
                        && self.assignments@[*pairs[i].0] == *pairs[i].1,
                forall|j: int|
                    #![trigger pairs[j]]
                    0 <= j < it.index() ==> bag_contents(*pairs[j].1).len() == 0
                        || self.net().place(*pairs[j].0).final_place,
        {
            let (place_id, bag) = entry;
            if !bag_is_empty(bag) {
                proof {
                    assert(self.tokens().contains_key(*place_id));
                }
                match self.petri_net.get_place(place_id) {
                    Some(place) => {
                        if !place.final_place {
                            return false;
                        }
                    },
                    None => {
                        return false;
                    },
                }
            }
        }
        proof {
            assert forall|p: u128| #[trigger] self.tokens().contains_key(p) implies (self.tokens()[p].len() == 0
                || self.net().place(p).final_place) by {
                let v = self.assignments@[p];
                assert(pairs.contains((&p, &v)));
                let j = choose|j: int| 0 <= j < pairs.len() && pairs[j] == (&p, &v);
                assert(pairs[j].0 == p);
            }
        }
        true
    }

    /// Whether some place holds a token.
    fn has_tokens(&self) -> (r: bool)
        ensures
            r == has_any_token(self.tokens()),
    {
        let ghost pairs = vstd::std_specs::hash::spec_hash_map_iter(&self.assignments).remaining();
        proof {
            vstd::std_specs::hash::axiom_spec_hash_map_iter(&self.assignments);
        }
        for entry in it: self.assignments.iter()
            invariant
                it.seq() == pairs,
                forall|i: int|
                    #![trigger pairs[i]]
                    0 <= i < pairs.len() ==> self.assignments@.contains_key(*pairs[i].0)
                        && self.assignments@[*pairs[i].0] == *pairs[i].1,
                forall|j: int| #![trigger pairs[j]] 0 <= j < it.index() ==> bag_contents(*pairs[j].1).len() == 0,
        {
            let (place_id, bag) = entry;
            if !bag_is_empty(bag) {
                proof {
                    assert(self.tokens().contains_key(*place_id));
                }
                return true;
            }
        }
        proof {
            assert forall|p: u128| #[trigger] self.tokens().contains_key(p) implies self.tokens()[p].len() == 0 by {
                let v = self.assignments@[p];
                assert(pairs.contains((&p, &v)));
                let j = choose|j: int| 0 <= j < pairs.len() && pairs[j] == (&p, &v);
                assert(pairs[j].0 == p);
            }
        }
        false
    }

    /// Whether some place holds a token and every token lies in a final place.
    pub fn is_final_has_tokens(&self) -> (r: bool)
        requires
            places_known(self.tokens(), self.net()),
        ensures
            r == (has_any_token(self.tokens()) && tokens_only_in_final_places(self.tokens(), self.net())),
    {
        let has_tokens = self.has_tokens();
        has_tokens && self.is_final()
    }
}

proof fn lemma_entries_prefix_len(entries: Seq<(OCToken, usize)>, i: int)
    requires
        0 <= i <= entries.len(),
    ensures
        entries_multiset(entries.take(i)).len() <= entries_multiset(entries).len(),
    decreases entries.len() - i,
{
    broadcast use vstd::multiset::group_multiset_axioms;

    if i < entries.len() {
        lemma_entries_prefix_len(entries, i + 1);
        assert(entries.take(i + 1).drop_last() =~= entries.take(i));
    } else {
        assert(entries.take(i) =~= entries);
    }
}

proof fn lemma_entries_sub(entries: Seq<(OCToken, usize)>, i: int)
    requires
        0 <= i <= entries.len(),
    ensures
        entries_multiset(entries.take(i)).subset_of(entries_multiset(entries)),
    decreases entries.len() - i,
{
    broadcast use vstd::multiset::group_multiset_axioms;

    if i < entries.len() {
        lemma_entries_sub(entries, i + 1);
        assert(entries.take(i + 1).drop_last() =~= entries.take(i));
    } else {
        assert(entries.take(i) =~= entries);
    }
}

/// `entries` lists `contents`: each distinct token at most once, with its number of
/// occurrences; every token that occurs is listed.
pub open spec fn lists_bag(entries: Seq<(OCToken, usize)>, contents: Multiset<OCToken>) -> bool {
    &&& entry_tokens(entries).no_duplicates()
    &&& forall|i: int| 0 <= i < entries.len() ==> (#[trigger] entries[i]).1 == contents.count(entries[i].0)
    &&& forall|t: OCToken|
        contents.count(t) > 0 ==> exists|i: int| 0 <= i < entries.len() && (#[trigger] entries[i]).0 == t
}

/// Each of `prev` with 1, then 2, ..., then `count` more occurrences of `item`.
pub open spec fn with_copies(prev: Seq<Multiset<OCToken>>, item: OCToken, count: nat) -> Seq<Multiset<OCToken>>
    decreases count,
{
    if count == 0 {
        Seq::empty()
    } else {
        with_copies(prev, item, (count - 1) as nat) + prev.map_values(|m: Multiset<OCToken>| m.add(copies(item, count)))
    }
}

/// The sub-multisets of the tokens that `entries` lists, built entry by entry: the empty
/// one first, then for each entry the ones so far with 1 up to all its occurrences added.
pub open spec fn sub_multisets(entries: Seq<(OCToken, usize)>) -> Seq<Multiset<OCToken>>
    decreases entries.len(),
{
    if entries.len() == 0 {
        seq![Multiset::empty()]
    } else {
        let prev = sub_multisets(entries.drop_last());
        prev + with_copies(prev, entries.last().0, entries.last().1 as nat)
    }
}

/// Every multiset of `ms` lies within `bound`.
pub open spec fn all_within(ms: Seq<Multiset<OCToken>>, bound: Multiset<OCToken>) -> bool {
    forall|j: int| 0 <= j < ms.len() ==> (#[trigger] ms[j]).subset_of(bound)
}

proof fn lemma_with_copies_within(prev: Seq<Multiset<OCToken>>, item: OCToken, count: nat, bound: Multiset<OCToken>)
    requires
        all_within(prev, bound),
    ensures
        all_within(with_copies(prev, item, count), bound.add(copies(item, count))),
    decreases count,
{
    broadcast use vstd::multiset::group_multiset_axioms;

    if count > 0 {
        lemma_with_copies_within(prev, item, (count - 1) as nat, bound);
        let front = with_copies(prev, item, (count - 1) as nat);
        let back = prev.map_values(|m: Multiset<OCToken>| m.add(copies(item, count)));
        let big = bound.add(copies(item, count));
        assert forall|j: int| 0 <= j < (front + back).len() implies (#[trigger] (front + back)[j]).subset_of(big) by {
            if j < front.len() {
                assert((front + back)[j] == front[j]);
                assert forall|x: OCToken| front[j].count(x) <= big.count(x) by {
                    lemma_copies_count(item, (count - 1) as nat, x);
                    lemma_copies_count(item, count, x);
                    assert(front[j].subset_of(bound.add(copies(item, (count - 1) as nat))));
                }
            } else {
                let m = prev[j - front.len()];
                assert((front + back)[j] == m.add(copies(item, count)));
                assert(m.subset_of(bound));
            }
        }
    }
}

proof fn lemma_sub_multisets_within(entries: Seq<(OCToken, usize)>)
    ensures
        all_within(sub_multisets(entries), entries_multiset(entries)),
    decreases entries.len(),
{
    broadcast use vstd::multiset::group_multiset_axioms;

    if entries.len() == 0 {
        assert(sub_multisets(entries)[0] =~= Multiset::<OCToken>::empty());
    } else {
        let pre = entries.drop_last();
        lemma_sub_multisets_within(pre);
        let prev = sub_multisets(pre);
        let item = entries.last().0;
        let count = entries.last().1 as nat;
        lemma_with_copies_within(prev, item, count, entries_multiset(pre));
        let big = entries_multiset(entries);
        let more = with_copies(prev, item, count);
        assert forall|j: int| 0 <= j < (prev + more).len() implies (#[trigger] (prev + more)[j]).subset_of(big) by {
            if j < prev.len() {
                assert((prev + more)[j] == prev[j]);
                assert(prev[j].subset_of(entries_multiset(pre)));
            } else {
                assert((prev + more)[j] == more[j - prev.len()]);
            }
        }
    }
}

proof fn lemma_with_copies_nonempty(prev: Seq<Multiset<OCToken>>, item: OCToken, count: nat)
    ensures
        forall|j: int| 0 <= j < with_copies(prev, item, count).len() ==> (#[trigger] with_copies(prev, item, count)[j]).len() > 0,
    decreases count,
{
    broadcast use vstd::multiset::group_multiset_axioms;

    if count > 0 {
        lemma_with_copies_nonempty(prev, item, (count - 1) as nat);
        let front = with_copies(prev, item, (count - 1) as nat);
        let back = prev.map_values(|m: Multiset<OCToken>| m.add(copies(item, count)));
        assert forall|j: int| 0 <= j < (front + back).len() implies (#[trigger] (front + back)[j]).len() > 0 by {
            if j < front.len() {
                assert((front + back)[j] == front[j]);
            } else {
                lemma_copies_count(item, count, item);
                assert((front + back)[j] == prev[j - front.len()].add(copies(item, count)));
            }
        }
    }
}

/// The first sub-multiset built is the empty one; every later one is nonempty.
proof fn lemma_sub_multisets_shape(entries: Seq<(OCToken, usize)>)
    ensures
        sub_multisets(entries).len() >= 1,
        sub_multisets(entries)[0] == Multiset::<OCToken>::empty(),
        forall|j: int| 1 <= j < sub_multisets(entries).len() ==> (#[trigger] sub_multisets(entries)[j]).len() > 0,
    decreases entries.len(),
{
    if entries.len() > 0 {
        let pre = entries.drop_last();
        lemma_sub_multisets_shape(pre);
        let prev = sub_multisets(pre);
        let more = with_copies(prev, entries.last().0, entries.last().1 as nat);
        lemma_with_copies_nonempty(prev, entries.last().0, entries.last().1 as nat);
        assert((prev + more)[0] == prev[0]);
        assert forall|j: int| 1 <= j < (prev + more).len() implies (#[trigger] (prev + more)[j]).len() > 0 by {
            if j < prev.len() {
                assert((prev + more)[j] == prev[j]);
            } else {
                assert((prev + more)[j] == more[j - prev.len()]);
            }
        }
    }
}

/// Each multiset of `prev` with 1 up to `count` copies of `item` added is built.
proof fn lemma_with_copies_members(prev: Seq<Multiset<OCToken>>, item: OCToken, count: nat)
    ensures
        forall|i: int, t: nat|
            0 <= i < prev.len() && 1 <= t <= count ==> with_copies(prev, item, count).contains(
                #[trigger] prev[i].add(copies(item, t)),
            ),
    decreases count,
{
    if count > 0 {
        lemma_with_copies_members(prev, item, (count - 1) as nat);
        let front = with_copies(prev, item, (count - 1) as nat);
        let back = prev.map_values(|m: Multiset<OCToken>| m.add(copies(item, count)));
        assert(with_copies(prev, item, count) == front + back);
        assert forall|i: int, t: nat| 0 <= i < prev.len() && 1 <= t <= count implies (front + back).contains(
            #[trigger] prev[i].add(copies(item, t)),
        ) by {
            if t < count {
                let q = choose|q: int| 0 <= q < front.len() && front[q] == prev[i].add(copies(item, t));
                assert((front + back)[q] == front[q]);
            } else {
                assert((front + back)[front.len() + i] == back[i]);
            }
        }
    }
}

/// Adding copies of an item the multisets do not hold keeps distinct multisets apart,
/// and tells apart different numbers of copies.
proof fn lemma_with_copies_distinct(prev: Seq<Multiset<OCToken>>, item: OCToken, count: nat)
    requires
        prev.no_duplicates(),
        forall|i: int| 0 <= i < prev.len() ==> (#[trigger] prev[i]).count(item) == 0,
    ensures
        with_copies(prev, item, count).no_duplicates(),
        forall|j: int|
            0 <= j < with_copies(prev, item, count).len() ==> 1 <= (#[trigger] with_copies(prev, item, count)[j]).count(
                item,
            ) <= count,
    decreases count,
{
    broadcast use vstd::multiset::group_multiset_axioms;

    if count > 0 {
        lemma_with_copies_distinct(prev, item, (count - 1) as nat);
        let front = with_copies(prev, item, (count - 1) as nat);
        let back = prev.map_values(|m: Multiset<OCToken>| m.add(copies(item, count)));
        lemma_copies_count(item, count, item);
        assert forall|a: int| 0 <= a < back.len() implies (#[trigger] back[a]).count(item) == count by {
            assert(back[a] == prev[a].add(copies(item, count)));
        }
        let all = front + back;
        assert forall|j: int| 0 <= j < all.len() implies 1 <= (#[trigger] all[j]).count(item) <= count by {
            if j < front.len() {
                assert(all[j] == front[j]);
            } else {
                assert(all[j] == back[j - front.len()]);
            }
        }
        assert forall|a: int, b: int| 0 <= a < b < all.len() implies all[a] != all[b] by {
            if b < front.len() {
                assert(all[a] == front[a] && all[b] == front[b]);
            } else if a >= front.len() {
                let ia = a - front.len();
                let ib = b - front.len();
                assert(all[a] == back[ia] && all[b] == back[ib]);
                if all[a] == all[b] {
                    assert forall|x: OCToken| prev[ia].count(x) == prev[ib].count(x) by {
                        assert(back[ia].count(x) == back[ib].count(x));
                        assert(back[ia] == prev[ia].add(copies(item, count)));
                        assert(back[ib] == prev[ib].add(copies(item, count)));
                    }
                    assert(prev[ia] =~= prev[ib]);
                }
            } else {
                assert(all[a] == front[a]);
                assert(all[b] == back[b - front.len()]);
                assert(front[a].count(item) <= count - 1);
            }
        }
    }
}

/// Every sub-multiset of the listed tokens is built, each exactly once.
proof fn lemma_sub_multisets_exact(entries: Seq<(OCToken, usize)>)
    requires
        entry_tokens(entries).no_duplicates(),
    ensures
        sub_multisets(entries).no_duplicates(),
        forall|m: Multiset<OCToken>| m.subset_of(entries_multiset(entries)) ==> #[trigger] sub_multisets(entries).contains(m),
    decreases entries.len(),
{
    broadcast use vstd::multiset::group_multiset_axioms;

    if entries.len() == 0 {
        assert forall|m: Multiset<OCToken>| m.subset_of(entries_multiset(entries)) implies #[trigger] sub_multisets(
            entries,
        ).contains(m) by {
            assert(m =~= Multiset::<OCToken>::empty());
            assert(sub_multisets(entries)[0] == m);
        }
    } else {
        let pre = entries.drop_last();
        let item = entries.last().0;
        let count = entries.last().1 as nat;
        assert(entry_tokens(pre) =~= entry_tokens(entries).drop_last());
        lemma_sub_multisets_exact(pre);
        lemma_sub_multisets_within(pre);
        let prev = sub_multisets(pre);
        let more = with_copies(prev, item, count);
        lemma_entries_count(pre, item);
        assert(!entry_tokens(pre).contains(item)) by {
            if entry_tokens(pre).contains(item) {
                let q = choose|q: int| 0 <= q < entry_tokens(pre).len() && entry_tokens(pre)[q] == item;
                assert(entry_tokens(entries)[q] == item);
                assert(entry_tokens(entries)[entries.len() - 1] == item);
            }
        }
        assert forall|i: int| 0 <= i < prev.len() implies (#[trigger] prev[i]).count(item) == 0 by {
            assert(prev[i].subset_of(entries_multiset(pre)));
        }
        lemma_with_copies_distinct(prev, item, count);
        lemma_with_copies_members(prev, item, count);
        let all = prev + more;
        assert forall|a: int, b: int| 0 <= a < b < all.len() implies all[a] != all[b] by {
            if b < prev.len() {
                assert(all[a] == prev[a] && all[b] == prev[b]);
            } else if a >= prev.len() {
                assert(all[a] == more[a - prev.len()] && all[b] == more[b - prev.len()]);
            } else {
                assert(all[a] == prev[a] && all[b] == more[b - prev.len()]);
                assert(more[b - prev.len()].count(item) >= 1);
            }
        }
        lemma_copies_count(item, count, item);
        assert forall|m: Multiset<OCToken>| m.subset_of(entries_multiset(entries)) implies #[trigger] all.contains(m) by {
            let t = m.count(item);
            let base = m.sub(copies(item, t));
            assert forall|x: OCToken| base.count(x) <= entries_multiset(pre).count(x) by {
                lemma_copies_count(item, t, x);
                lemma_copies_count(item, count, x);
            }
            assert(base.subset_of(entries_multiset(pre)));
            assert(prev.contains(base));
            let i = choose|i: int| 0 <= i < prev.len() && prev[i] == base;
            if t == 0 {
                assert forall|x: OCToken| m.count(x) == base.count(x) by {
                    lemma_copies_count(item, t, x);
                }
                assert(m =~= base);
                assert(all[i] == m);
            } else {
                assert(t <= count) by {
                    assert(m.count(item) <= entries_multiset(entries).count(item));
                }
                assert forall|x: OCToken| m.count(x) == base.add(copies(item, t)).count(x) by {
                    lemma_copies_count(item, t, x);
                }
                assert(m =~= prev[i].add(copies(item, t)));
                assert(more.contains(prev[i].add(copies(item, t))));
                let q = choose|q: int| 0 <= q < more.len() && more[q] == m;
                assert(all[prev.len() + q] == m);
            }
        }
    }
}

/// Law: `power_multiset` returns each nonempty sub-multiset of the bag exactly once.
pub proof fn lemma_power_multiset_exact(e: Seq<(OCToken, usize)>, contents: Multiset<OCToken>)
    requires
        lists_bag(e, contents),
    ensures
        swap_out_first(sub_multisets(e)).no_duplicates(),
        forall|m: Multiset<OCToken>|
            #[trigger] swap_out_first(sub_multisets(e)).contains(m) <==> (m.subset_of(contents) && m.len() > 0),
{
    broadcast use vstd::multiset::group_multiset_axioms;

    let all = sub_multisets(e);
    lemma_sub_multisets_exact(e);
    lemma_sub_multisets_shape(e);
    lemma_sub_multisets_within(e);
    lemma_entries_are_contents(e, contents);
    let r = swap_out_first(all);
    let n = all.len();
    assert forall|k: int| 0 <= k < r.len() implies #[trigger] r[k] == all[if k == 0 { n - 1 } else { k }] by {
        assert(r[k] == all.update(0, all.last())[k]);
    }
    assert forall|a: int, b: int| 0 <= a < b < r.len() implies r[a] != r[b] by {
        assert(r[a] == all[if a == 0 { n - 1 } else { a }]);
        assert(r[b] == all[b]);
    }
    assert forall|m: Multiset<OCToken>| #[trigger] r.contains(m) <==> (m.subset_of(contents) && m.len() > 0) by {
        if r.contains(m) {
            let k = choose|k: int| 0 <= k < r.len() && r[k] == m;
            lemma_power_multiset_members(e, contents, k);
        }
        if m.subset_of(contents) && m.len() > 0 {
            assert(all.contains(m));
            let q = choose|q: int| 0 <= q < all.len() && all[q] == m;
            assert(q != 0) by {
                if q == 0 {
                    assert(m.len() == 0);
                }
            }
            if q == n - 1 {
                assert(r[0] == m);
            } else {
                assert(r[q] == m);
            }
        }
    }
}

/// Every multiset that `power_multiset` returns for a bag listed by `e` is a nonempty
/// sub-multiset of the bag.
proof fn lemma_power_multiset_members(e: Seq<(OCToken, usize)>, contents: Multiset<OCToken>, k: int)
    requires
        lists_bag(e, contents),
        0 <= k < swap_out_first(sub_multisets(e)).len(),
    ensures
        swap_out_first(sub_multisets(e))[k].subset_of(contents),
        swap_out_first(sub_multisets(e))[k].len() > 0,
{
    let all = sub_multisets(e);
    lemma_sub_multisets_shape(e);
    lemma_sub_multisets_within(e);
    lemma_entries_are_contents(e, contents);
    let src = if k == 0 { all.len() - 1 } else { k };
    assert(swap_out_first(all)[k] == all.update(0, all.last())[k]);
    assert(swap_out_first(all)[k] == all[src]);
    assert(all[src].subset_of(entries_multiset(e)));
}

/// All nonempty sub-multisets of `bag`, each once: the sub-multisets are built from the
/// empty one by adding, for each distinct token in turn, 1 up to all its occurrences to
/// each one built so far; then the empty one is swapped out for the last one.
pub fn power_multiset(bag: &HashBag<OCToken>) -> (r: Vec<HashBag<OCToken>>)
    ensures
        exists|e: Seq<(OCToken, usize)>|
            lists_bag(e, bag_contents(*bag)) && r@.map_values(|b: HashBag<OCToken>| bag_contents(b))
                == swap_out_first(sub_multisets(e)),
{
    broadcast use vstd::multiset::group_multiset_axioms;

    let entries = bag_entries(bag);
    let total = bag_len(bag);
    proof {
        lemma_entries_are_contents(entries@, bag_contents(*bag));
    }
    let mut power_multisets: Vec<HashBag<OCToken>> = Vec::new();
    power_multisets.push(bag_new());
    proof {
        assert(power_multisets@.map_values(|b: HashBag<OCToken>| bag_contents(b)) =~= sub_multisets(entries@.take(0)));
    }
    let mut k: usize = 0;
    while k < entries.len()
        invariant
            k <= entries@.len(),
            entries_multiset(entries@).len() == total,
            power_multisets@.len() >= 1,
            power_multisets@.map_values(|b: HashBag<OCToken>| bag_contents(b)) == sub_multisets(entries@.take(k as int)),
        decreases entries.len() - k,
    {
        let item = entries[k].0;
        let count = entries[k].1;
        let current_len = power_multisets.len();
        let ghost prev = sub_multisets(entries@.take(k as int));
        assert(prev.len() == current_len);
        let ghost bound = entries_multiset(entries@.take(k as int));
        proof {
            assert(entries@.take(k + 1).drop_last() =~= entries@.take(k as int));
            lemma_sub_multisets_within(entries@.take(k as int));
            lemma_entries_prefix_len(entries@, k + 1);
            assert(entries_multiset(entries@.take(k + 1)).len() == bound.len() + count) by {
                lemma_copies_count(item, count as nat, item);
            }
            assert(power_multisets@.map_values(|b: HashBag<OCToken>| bag_contents(b)) =~= prev + with_copies(prev, item, 0));
        }
        let mut times: usize = 0;
        while times < count
            invariant
                times <= count,
                current_len == prev.len(),
                current_len >= 1,
                all_within(prev, bound),
                bound.len() + count <= total,
                power_multisets@.len() >= current_len,
                power_multisets@.map_values(|b: HashBag<OCToken>| bag_contents(b)) == prev + with_copies(prev, item, times as nat),
            decreases count - times,
        {
            times += 1;
            let ghost before = power_multisets@.map_values(|b: HashBag<OCToken>| bag_contents(b));
            let mut i: usize = 0;
            while i < current_len
                invariant
                    1 <= times <= count,
                    i <= current_len,
                    current_len == prev.len(),
                    all_within(prev, bound),
                    bound.len() + count <= total,
                    before == prev + with_copies(prev, item, (times - 1) as nat),
                    power_multisets@.len() == before.len() + i,
                    before.len() >= current_len,
                    power_multisets@.map_values(|b: HashBag<OCToken>| bag_contents(b)) == before + prev.take(i as int).map_values(
                        |m: Multiset<OCToken>| m.add(copies(item, times as nat)),
                    ),
                decreases current_len - i,
            {
                proof {
                    assert(power_multisets@.map_values(|b: HashBag<OCToken>| bag_contents(b))[i as int] == prev[i as int]);
                    assert(bag_contents(power_multisets@[i as int]) == prev[i as int]);
                    assert(prev[i as int].subset_of(bound));
                    lemma_subset_len(prev[i as int], bound);
                    assert(bag_contents(power_multisets@[i as int]).len() + times <= usize::MAX);
                }
                let mut new_subset = bag_clone(&power_multisets[i]);
                bag_insert_many(&mut new_subset, item, times);
                let ghost mid = power_multisets@.map_values(|b: HashBag<OCToken>| bag_contents(b));
                power_multisets.push(new_subset);
                proof {
                    assert(power_multisets@.map_values(|b: HashBag<OCToken>| bag_contents(b)) =~= mid.push(
                        prev[i as int].add(copies(item, times as nat)),
                    ));
                    assert(prev.take(i + 1).map_values(|m: Multiset<OCToken>| m.add(copies(item, times as nat)))
                        =~= prev.take(i as int).map_values(|m: Multiset<OCToken>| m.add(copies(item, times as nat))).push(
                        prev[i as int].add(copies(item, times as nat)),
                    ));
                }
                i += 1;
            }
            proof {
                assert(prev.take(current_len as int) =~= prev);
                assert(with_copies(prev, item, times as nat) == with_copies(prev, item, (times - 1) as nat) + prev.map_values(
                    |m: Multiset<OCToken>| m.add(copies(item, times as nat)),
                ));
                assert(power_multisets@.map_values(|b: HashBag<OCToken>| bag_contents(b)) =~= prev + with_copies(prev, item, times as nat));
            }
        }
        proof {
            assert(sub_multisets(entries@.take(k + 1)) == prev + with_copies(prev, item, count as nat));
        }
        k += 1;
    }
    proof {
        assert(entries@.take(k as int) =~= entries@);
    }
    let ghost full = power_multisets@.map_values(|b: HashBag<OCToken>| bag_contents(b));
    power_multisets.swap_remove(0);
    proof {
        assert(power_multisets@.map_values(|b: HashBag<OCToken>| bag_contents(b)) =~= swap_out_first(full));
        assert(lists_bag(entries@, bag_contents(*bag)));
    }
    power_multisets
}

/// Firing takes tokens out for every entry of the binding, whatever its object type: where
/// an entry consumes token `x` from place `p` `count` times and no output arc of the
/// transition leads back into `p`, `p` afterwards holds `count` fewer occurrences of `x`
/// than before (none, if it held no more), and fewer still if other entries take `x` too.
pub proof fn lemma_fired_takes_every_entry(
    m: Map<u128, Multiset<OCToken>>,
    t: Transition,
    b: BindingView,
    i: int,
    j: int,
    x: OCToken,
)
    requires
        0 <= i < b.infos.len(),
        0 <= j < b.infos[i].place_bindings.len(),
        b.infos[i].place_bindings[j].consumed.contains(x),
        forall|k: int|
            0 <= k < t.output_arcs@.len() ==> (#[trigger] t.output_arcs@[k]).target_place_id
                != b.infos[i].place_bindings[j].place_id,
    ensures
        ({
            let pb = b.infos[i].place_bindings[j];
            let before = tokens_at(m, pb.place_id).count(x);
            tokens_at(fired(m, t, b), pb.place_id).count(x) <= if before >= pb.count { before - pb.count } else { 0 }
        }),
{
    broadcast use vstd::multiset::group_multiset_axioms;

    let pb = b.infos[i].place_bindings[j];
    let p = pb.place_id;
    lemma_binding_removal_at_least(b.infos, i, j, x);
    lemma_arcs_into_none(t.output_arcs@, p);
    assert(times(binding_tokens(b.infos), 0) == Multiset::<OCToken>::empty());
}

/// Firing puts every token the binding binds, of every object type, into every place that
/// an output arc of the transition leads into.
pub proof fn lemma_fired_puts_every_token(
    m: Map<u128, Multiset<OCToken>>,
    t: Transition,
    b: BindingView,
    i: int,
    k: int,
    a: int,
)
    requires
        0 <= i < b.infos.len(),
        0 <= k < b.infos[i].tokens.len(),
        0 <= a < t.output_arcs@.len(),
    ensures
        tokens_at(fired(m, t, b), t.output_arcs@[a].target_place_id).count(b.infos[i].tokens[k]) >= 1,
{
    broadcast use vstd::multiset::group_multiset_axioms;

    let p = t.output_arcs@[a].target_place_id;
    let x = b.infos[i].tokens[k];
    lemma_binding_tokens_has(b.infos, i, k);
    lemma_arcs_into_some(t.output_arcs@, a);
    let n = arcs_into(t.output_arcs@, p);
    assert(times(binding_tokens(b.infos), n) == times(binding_tokens(b.infos), (n - 1) as nat).add(binding_tokens(b.infos)));
    assert(fired(m, t, b).contains_key(p)) by {
        assert(t.output_arcs@[a].target_place_id == p);
    }
}

/// The removal of a binding counts what each of its place bindings consumes.
proof fn lemma_binding_removal_at_least(infos: Seq<ObjectBindingInfoView>, i: int, j: int, x: OCToken)
    requires
        0 <= i < infos.len(),
        0 <= j < infos[i].place_bindings.len(),
        infos[i].place_bindings[j].consumed.contains(x),
    ensures
        binding_removal(infos, infos[i].place_bindings[j].place_id).count(x) >= infos[i].place_bindings[j].count,
    decreases infos.len(),
{
    broadcast use vstd::multiset::group_multiset_axioms;

    let p = infos[i].place_bindings[j].place_id;
    if i < infos.len() - 1 {
        lemma_binding_removal_at_least(infos.drop_last(), i, j, x);
        assert(infos.drop_last()[i] == infos[i]);
    } else {
        lemma_place_bindings_removal_at_least(infos[i].place_bindings, j, x);
    }
}

proof fn lemma_place_bindings_removal_at_least(pbs: Seq<PlaceBindingView>, j: int, x: OCToken)
    requires
        0 <= j < pbs.len(),
        pbs[j].consumed.contains(x),
    ensures
        place_bindings_removal(pbs, pbs[j].place_id).count(x) >= pbs[j].count,
    decreases pbs.len(),
{
    broadcast use vstd::multiset::group_multiset_axioms;

    if j < pbs.len() - 1 {
        lemma_place_bindings_removal_at_least(pbs.drop_last(), j, x);
        assert(pbs.drop_last()[j] == pbs[j]);
    } else {
        lemma_repeat_count(pbs[j].consumed, pbs[j].count, x);
    }
}

/// No arc leads into `p`, so none is counted.
proof fn lemma_arcs_into_none(arcs: Seq<OutputArc>, p: u128)
    requires
        forall|k: int| 0 <= k < arcs.len() ==> (#[trigger] arcs[k]).target_place_id != p,
    ensures
        arcs_into(arcs, p) == 0,
    decreases arcs.len(),
{
    if arcs.len() > 0 {
        let pre = arcs.drop_last();
        assert forall|k: int| 0 <= k < pre.len() implies (#[trigger] pre[k]).target_place_id != p by {
            assert(pre[k] == arcs[k]);
        }
        lemma_arcs_into_none(pre, p);
        assert(arcs[arcs.len() - 1].target_place_id != p);
    }
}

/// Arc `a` leads into its target, so that target is counted at least once.
proof fn lemma_arcs_into_some(arcs: Seq<OutputArc>, a: int)
    requires
        0 <= a < arcs.len(),
    ensures
        arcs_into(arcs, arcs[a].target_place_id) >= 1,
    decreases arcs.len(),
{
    if a < arcs.len() - 1 {
        lemma_arcs_into_some(arcs.drop_last(), a);
        assert(arcs.drop_last()[a] == arcs[a]);
    }
}

/// A binding binds each token of each of its entries.
proof fn lemma_binding_tokens_has(infos: Seq<ObjectBindingInfoView>, i: int, k: int)
    requires
        0 <= i < infos.len(),
        0 <= k < infos[i].tokens.len(),
    ensures
        binding_tokens(infos).count(infos[i].tokens[k]) >= 1,
    decreases infos.len(),
{
    broadcast use vstd::multiset::group_multiset_axioms;
    broadcast use vstd::seq_lib::group_to_multiset_ensures;

    if i < infos.len() - 1 {
        lemma_binding_tokens_has(infos.drop_last(), i, k);
        assert(infos.drop_last()[i] == infos[i]);
    } else {
        assert(infos[i].tokens.contains(infos[i].tokens[k]));
    }
}

/// Firing leaves alone every place that no entry of the binding takes from and no output
/// arc of the transition leads into.
pub proof fn lemma_fired_leaves_other_places(m: Map<u128, Multiset<OCToken>>, t: Transition, b: BindingView, p: u128)
    requires
        forall|i: int, j: int|
            0 <= i < b.infos.len() && 0 <= j < b.infos[i].place_bindings.len() ==> (#[trigger] b.infos[i].place_bindings[j]).place_id
                != p,
        forall|k: int| 0 <= k < t.output_arcs@.len() ==> (#[trigger] t.output_arcs@[k]).target_place_id != p,
    ensures
        tokens_at(fired(m, t, b), p) == tokens_at(m, p),
{
    broadcast use vstd::multiset::group_multiset_axioms;

    lemma_binding_removal_none(b.infos, p);
    lemma_arcs_into_none(t.output_arcs@, p);
    assert(times(binding_tokens(b.infos), 0) == Multiset::<OCToken>::empty());
    assert(tokens_at(m, p).sub(Multiset::empty()).add(Multiset::empty()) =~= tokens_at(m, p));
    if !m.contains_key(p) {
        assert(!is_target(t.output_arcs@, p));
    }
}

proof fn lemma_binding_removal_none(infos: Seq<ObjectBindingInfoView>, p: u128)
    requires
        forall|i: int, j: int|
            0 <= i < infos.len() && 0 <= j < infos[i].place_bindings.len() ==> (#[trigger] infos[i].place_bindings[j]).place_id != p,
    ensures
        binding_removal(infos, p) == Multiset::<OCToken>::empty(),
    decreases infos.len(),
{
    broadcast use vstd::multiset::group_multiset_axioms;

    if infos.len() > 0 {
        let pre = infos.drop_last();
        assert forall|i: int, j: int| 0 <= i < pre.len() && 0 <= j < pre[i].place_bindings.len() implies (#[trigger] pre[i].place_bindings[j]).place_id != p by {
            assert(pre[i] == infos[i]);
        }
        lemma_binding_removal_none(pre, p);
        lemma_place_bindings_removal_none(infos.last().place_bindings, p);
        assert(binding_removal(infos, p) =~= Multiset::<OCToken>::empty());
    }
}

proof fn lemma_place_bindings_removal_none(pbs: Seq<PlaceBindingView>, p: u128)
    requires
        forall|j: int| 0 <= j < pbs.len() ==> (#[trigger] pbs[j]).place_id != p,
    ensures
        place_bindings_removal(pbs, p) == Multiset::<OCToken>::empty(),
    decreases pbs.len(),
{
    broadcast use vstd::multiset::group_multiset_axioms;

    if pbs.len() > 0 {
        let pre = pbs.drop_last();
        assert forall|j: int| 0 <= j < pre.len() implies (#[trigger] pre[j]).place_id != p by {
            assert(pre[j] == pbs[j]);
        }
        lemma_place_bindings_removal_none(pre, p);
        assert(pbs[pbs.len() - 1].place_id != p);
        assert(place_bindings_removal(pbs, p) =~= Multiset::<OCToken>::empty());
    }
}

} // verus!
