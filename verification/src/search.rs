//! The steps of the search for a run of the net that aligns with a query case.
use crate::case_graph::{CaseGraph, CaseGraphView, Edge, EdgeView, Event, Node, NodeView, Object};
use crate::case_stats::{
    calculate_min_cost, count_map, count_of, increment_edge_count, increment_name_count, keys_distinct, min_cost_spec,
    name_count, CaseStats, EdgeType,
};
use crate::marking::{
    binding_places_present, binding_tokens, counter_passes, fire_fits, fired, firing_bindings, fresh_tokens, lemma_bindings_places_present,
    lemma_bindings_types_distinct, types_distinct,
    support_listing, tokens_at, transition_consistent, variable_supports_fit, Binding, BindingView, Marking,
    ObjectBindingInfoView,
};
use crate::petri_net::{ObjectCentricPetriNet, Place, Transition};
use vstd::multiset::Multiset;
use vstd::prelude::*;

verus! {

/// How a search node came about from its parent.
pub enum SearchNodeAction {
    /// The transition with this id fired with this binding.
    FireTransition(u128, Binding),
    /// A token was added to the initial place with this id.
    AddToken(u128),
    /// The root of the search.
    VOID,
}

/// A search step as plain values.
pub enum SearchNodeActionView {
    FireTransition(u128, BindingView),
    AddToken(u128),
    VOID,
}

impl View for SearchNodeAction {
    type V = SearchNodeActionView;

    open spec fn view(&self) -> SearchNodeActionView {
        match self {
            SearchNodeAction::FireTransition(t, b) => SearchNodeActionView::FireTransition(*t, b@),
            SearchNodeAction::AddToken(p) => SearchNodeActionView::AddToken(*p),
            SearchNodeAction::VOID => SearchNodeActionView::VOID,
        }
    }
}

impl SearchNodeAction {
    pub fn fire_transition(transition_id: u128, binding: Binding) -> (r: Self)
        ensures
            r@ == SearchNodeActionView::FireTransition(transition_id, binding@),
    {
        SearchNodeAction::FireTransition(transition_id, binding)
    }

    pub fn add_token(place_id: u128) -> (r: Self)
        ensures
            r@ == SearchNodeActionView::AddToken(place_id),
    {
        SearchNodeAction::AddToken(place_id)
    }

    /// The node came about without a firing (it is the root, or a token was added), so
    /// tokens may still be added after it.
    pub fn is_pre_firing(&self) -> (r: bool)
        ensures
            r == !(self@ is FireTransition),
    {
        match self {
            SearchNodeAction::FireTransition(_, _) => false,
            _ => true,
        }
    }
}

impl Clone for SearchNodeAction {
    fn clone(&self) -> (r: Self)
        ensures
            r@ == self@,
    {
        match self {
            SearchNodeAction::FireTransition(t, b) => SearchNodeAction::FireTransition(*t, b.clone()),
            SearchNodeAction::AddToken(p) => SearchNodeAction::AddToken(*p),
            SearchNodeAction::VOID => SearchNodeAction::VOID,
        }
    }
}

/// `a` comes before `b` in the order of strings, comparing from position `i` on.
pub open spec fn lex_less_from(a: Seq<char>, b: Seq<char>, i: nat) -> bool
    decreases a.len() - i,
{
    if i >= a.len() {
        i < b.len()
    } else if i >= b.len() {
        false
    } else if a[i as int] != b[i as int] {
        (a[i as int] as u32) < (b[i as int] as u32)
    } else {
        lex_less_from(a, b, i + 1)
    }
}

/// `a` comes before `b` in the order of strings (character by character, a proper
/// prefix first).
pub open spec fn lex_less(a: Seq<char>, b: Seq<char>) -> bool {
    lex_less_from(a, b, 0)
}

/// Whether `a` comes before `b` in the order of strings.
fn lex_less_chars(a: &Vec<char>, b: &Vec<char>) -> (r: bool)
    ensures
        r == lex_less(a@, b@),
{
    let mut i: usize = 0;
    while i < a.len() && i < b.len() && a[i] == b[i]
        invariant
            i <= a@.len(),
            lex_less_from(a@, b@, i as nat) == lex_less(a@, b@),
        decreases a.len() - i,
    {
        i += 1;
    }
    if i >= a.len() {
        i < b.len()
    } else if i >= b.len() {
        false
    } else {
        (a[i] as u32) < (b[i] as u32)
    }
}

/// The characters of `s`, in order.
fn chars_of(s: &String) -> (r: Vec<char>)
    ensures
        r@ == s@,
{
    let text = s.as_str();
    proof {
        vstd::string::axiom_spec_iter(text);
    }
    let mut r: Vec<char> = Vec::new();
    for c in it: text.chars()
        invariant
            r@ == it.seq().take(it.index() as int),
    {
        proof {
            assert(it.seq().take(it.index() + 1) =~= it.seq().take(it.index() as int).push(c));
        }
        r.push(c);
    }
    assert(r@ =~= s@);
    r
}

/// A node of the search: a marking, the partial case built on the way to it with its
/// counts, the lower bound on its alignment cost, the last event added, and how it came about.
pub struct SearchNode {
    pub marking: Marking,
    pub partial_case: CaseGraph,
    pub min_cost: u128,
    pub most_recent_event_id: Option<usize>,
    pub action: SearchNodeAction,
    pub partial_case_stats: CaseStats,
}

impl SearchNode {
    /// A node from its parts, with the counts of its partial case given.
    pub fn new_with_stats(
        marking: Marking,
        partial_case: CaseGraph,
        min_cost: u128,
        most_recent_event_id: Option<usize>,
        action: SearchNodeAction,
        partial_case_stats: CaseStats,
    ) -> (n: Self)
        ensures
            n == (SearchNode { marking, partial_case, min_cost, most_recent_event_id, action, partial_case_stats }),
    {
        SearchNode { marking, partial_case, min_cost, most_recent_event_id, action, partial_case_stats }
    }
}

/// No two places of the net share an id.
pub open spec fn place_ids_distinct(net: ObjectCentricPetriNet) -> bool {
    forall|i: int, j: int| 0 <= i < j < net.places@.len() ==> (#[trigger] net.places@[i]).id != (#[trigger] net.places@[j]).id
}

/// Whether no two places of the net share an id.
pub fn check_place_ids_distinct(net: &ObjectCentricPetriNet) -> (r: bool)
    ensures
        r == place_ids_distinct(*net),
{
    let n = net.places.len();
    let mut i: usize = 0;
    while i < n
        invariant
            n == net.places@.len(),
            i <= n,
            forall|a: int, b: int| 0 <= a < b < n && a < i ==> (#[trigger] net.places@[a]).id != (#[trigger] net.places@[b]).id,
        decreases n - i,
    {
        let mut j: usize = i + 1;
        while j < n
            invariant
                n == net.places@.len(),
                i < n,
                i + 1 <= j <= n,
                forall|a: int, b: int| 0 <= a < b < n && a < i ==> (#[trigger] net.places@[a]).id != (#[trigger] net.places@[b]).id,
                forall|b: int| i < b < j ==> net.places@[i as int].id != (#[trigger] net.places@[b]).id,
            decreases n - j,
        {
            if net.places[i].id == net.places[j].id {
                assert(!place_ids_distinct(*net)) by {
                    assert(net.places@[i as int].id == net.places@[j as int].id);
                }
                return false;
            }
            j += 1;
        }
        i += 1;
    }
    true
}

/// Some initial place of the net has a type that comes after `ty` and already has tokens.
pub open spec fn higher_type_used(net: ObjectCentricPetriNet, counts: Seq<(String, usize)>, ty: Seq<char>) -> bool {
    exists|i: int|
        0 <= i < net.places@.len() && (#[trigger] net.places@[i]).initial && lex_less(ty, net.places@[i].object_type@)
            && count_of(count_map(counts), net.places@[i].object_type@) > 0
}

/// A token may be added to place `p`: it is initial and no later type has tokens.
pub open spec fn token_place(net: ObjectCentricPetriNet, counts: Seq<(String, usize)>, p: Place) -> bool {
    p.initial && !higher_type_used(net, counts, p.object_type@)
}

/// The initial places a token may be added to, in the order of the places.
pub open spec fn token_places(net: ObjectCentricPetriNet, counts: Seq<(String, usize)>) -> Seq<Place> {
    net.places@.filter(|p: Place| token_place(net, counts, p))
}

/// Whether an initial place of a type after `ty` already has tokens.
fn check_higher_type_used(net: &ObjectCentricPetriNet, counts: &Vec<(String, usize)>, ty: &String) -> (r: bool)
    requires
        keys_distinct(counts@),
    ensures
        r == higher_type_used(*net, counts@, ty@),
{
    let mine = chars_of(ty);
    let mut i: usize = 0;
    while i < net.places.len()
        invariant
            i <= net.places@.len(),
            mine@ == ty@,
            keys_distinct(counts@),
            forall|j: int|
                0 <= j < i ==> !((#[trigger] net.places@[j]).initial && lex_less(ty@, net.places@[j].object_type@)
                    && count_of(count_map(counts@), net.places@[j].object_type@) > 0),
        decreases net.places.len() - i,
    {
        let p = &net.places[i];
        if p.initial {
            let theirs = chars_of(&p.object_type);
            if lex_less_chars(&mine, &theirs) && name_count(counts, &p.object_type) > 0 {
                return true;
            }
        }
        i += 1;
    }
    false
}

/// What a child that adds one token to initial place `p` is.
#[verifier::opaque]
pub open spec fn token_child_of(node: SearchNode, query: CaseStats, p: Place, c: SearchNode) -> bool {
    let m = node.marking;
    &&& c.action@ == SearchNodeActionView::AddToken(p.id)
    &&& c.marking.net() == m.net()
    &&& c.marking.wf()
    &&& c.marking.next_id() == m.next_id() + 1
    &&& c.marking.tokens() == m.tokens().insert(p.id, tokens_at(m.tokens(), p.id).add(fresh_tokens(m.next_id(), 1)))
    &&& c.partial_case@ == (CaseGraphView {
        nodes: node.partial_case@.nodes.push(NodeView { is_event: false, id: m.next_id() as usize, node_type: p.object_type@ }),
        edges: node.partial_case@.edges,
    })
    &&& c.partial_case_stats.wf()
    &&& c.partial_case_stats.event_counts() == node.partial_case_stats.event_counts()
    &&& c.partial_case_stats.object_counts() == node.partial_case_stats.object_counts().insert(
        p.object_type@,
        count_of(node.partial_case_stats.object_counts(), p.object_type@) + 1,
    )
    &&& c.partial_case_stats.edge_counts() == node.partial_case_stats.edge_counts()
    &&& c.most_recent_event_id is None
    &&& c.min_cost == min_cost_spec(query, c.partial_case_stats)
}

/// The child that adds one new token to initial place `place`.
fn token_child(node: &SearchNode, place: &Place, query: &CaseStats) -> (c: SearchNode)
    requires
        node.marking.wf(),
        node.marking.net().has_place(place.id),
        node.marking.net().place(place.id).initial,
        node.marking.next_id() < usize::MAX,
        tokens_at(node.marking.tokens(), place.id).len() < usize::MAX,
        node.partial_case_stats.wf(),
        count_of(node.partial_case_stats.object_counts(), place.object_type@) < usize::MAX,
        node.partial_case_stats.entries() < usize::MAX,
        query.wf(),
    ensures
        token_child_of(*node, *query, *place, c),
{
    let mut new_marking = node.marking.copy();
    let token_ids = new_marking.add_initial_token_count(&place.id, 1);
    let mut new_partial_case = node.partial_case.copy();
    new_partial_case.add_node(Node::ObjectNode(Object { id: token_ids[0], object_type: place.object_type.clone() }));
    let mut stats = node.partial_case_stats.copy();
    increment_name_count(&mut stats.query_object_counts, &place.object_type);
    let min_cost = calculate_min_cost(query, &stats);
    proof {
        reveal(token_child_of);
    }
    SearchNode::new_with_stats(new_marking, new_partial_case, min_cost, None, SearchNodeAction::add_token(place.id), stats)
}

/// The tokens a binding binds, entry by entry, in order.
pub open spec fn flat_tokens(infos: Seq<ObjectBindingInfoView>) -> Seq<crate::marking::OCToken>
    decreases infos.len(),
{
    if infos.len() == 0 {
        Seq::empty()
    } else {
        flat_tokens(infos.drop_last()) + infos.last().tokens
    }
}

/// One event-to-object edge from `event` to each token of `toks`, numbered on from `start`.
pub open spec fn e2o_edges(start: nat, event: usize, toks: Seq<crate::marking::OCToken>) -> Seq<EdgeView> {
    Seq::new(
        toks.len(),
        |k: int| EdgeView { id: (start + k + 1) as usize, from: event, to: toks[k].id, edge_type: EdgeType::E2O },
    )
}

/// The directly-follows edge from the previous event to `event`, if there was one.
pub open spec fn df_edges(start: nat, prev: Option<usize>, event: usize) -> Seq<EdgeView> {
    match prev {
        Some(pe) => seq![EdgeView { id: (start + 1) as usize, from: pe, to: event, edge_type: EdgeType::DF }],
        None => Seq::empty(),
    }
}

/// The counts and numbers of a firing child of `node` fit in a `usize`.
pub open spec fn firing_room(node: SearchNode, t: Transition, b: BindingView) -> bool {
    let stats = node.partial_case_stats;
    let n = flat_tokens(b.infos).len();
    &&& stats.entries() + 3 <= usize::MAX
    &&& !t.silent ==> {
        &&& count_of(stats.event_counts(), t.name@) < usize::MAX
        &&& count_of(stats.edge_counts(), EdgeType::E2O) + n <= usize::MAX
        &&& count_of(stats.edge_counts(), EdgeType::DF) < usize::MAX
        &&& node.partial_case@.nodes.len() < usize::MAX
        &&& node.partial_case@.edges.len() + n + 1 <= usize::MAX
    }
}

/// What a child that fires `t` with binding `b` is: the marking fired; for a visible
/// transition, one new event, an event-to-object edge per bound token, a directly-follows
/// edge from the previous event if there is one, and the count of the event type, of the
/// event-to-object edges (one per bound token) and of the directly-follows edges (one if
/// there was a previous event) raised, so that the counts stay those of the case.
#[verifier::opaque]
pub open spec fn firing_child_of(node: SearchNode, query: CaseStats, t: Transition, b: BindingView, c: SearchNode) -> bool {
    let m = node.marking;
    let old_stats = node.partial_case_stats;
    let stats = c.partial_case_stats;
    &&& c.action@ == SearchNodeActionView::FireTransition(t.id, b)
    &&& c.marking.net() == m.net()
    &&& c.marking.wf()
    &&& c.marking.tokens() == fired(m.tokens(), t, b)
    &&& counter_passes(m.next_id(), c.marking.next_id(), binding_tokens(b.infos))
    &&& stats.wf()
    &&& c.min_cost == min_cost_spec(query, stats)
    &&& stats.object_counts() == old_stats.object_counts()
    &&& if t.silent {
        &&& c.partial_case@ == node.partial_case@
        &&& stats.event_counts() == old_stats.event_counts()
        &&& stats.edge_counts() == old_stats.edge_counts()
        &&& c.most_recent_event_id == node.most_recent_event_id
    } else {
        let ev = (node.partial_case@.nodes.len() + 1) as usize;
        let toks = flat_tokens(b.infos);
        let ne = node.partial_case@.edges.len();
        &&& c.partial_case@ == (CaseGraphView {
            nodes: node.partial_case@.nodes.push(NodeView { is_event: true, id: ev, node_type: t.name@ }),
            edges: node.partial_case@.edges + e2o_edges(ne, ev, toks) + df_edges(ne + toks.len(), node.most_recent_event_id, ev),
        })
        &&& stats.event_counts() == old_stats.event_counts().insert(t.name@, count_of(old_stats.event_counts(), t.name@) + 1)
        &&& forall|x: EdgeType|
            #[trigger] count_of(stats.edge_counts(), x) == count_of(old_stats.edge_counts(), x) + if x == EdgeType::E2O {
                toks.len()
            } else if x == EdgeType::DF && node.most_recent_event_id is Some {
                1nat
            } else {
                0nat
            }
        &&& c.most_recent_event_id == Some(ev)
    }
}

/// `new` counts `n` more of `k` than `old`, and the same of everything else.
pub open spec fn counts_added<K>(old: Map<K, nat>, new: Map<K, nat>, k: K, n: nat) -> bool {
    forall|x: K| #[trigger] count_of(new, x) == count_of(old, x) + if x == k { n } else { 0 }
}

/// Adds an event-to-object edge from `event_id` for each token that `binding` binds,
/// counting each.
fn add_object_edges(case: &mut CaseGraph, stats: &mut CaseStats, event_id: usize, binding: &Binding)
    requires
        old(stats).wf(),
        count_of(old(stats).edge_counts(), EdgeType::E2O) + flat_tokens(binding@.infos).len() <= usize::MAX,
        old(case)@.edges.len() + flat_tokens(binding@.infos).len() <= usize::MAX,
    ensures
        final(stats).wf(),
        final(case)@.nodes == old(case)@.nodes,
        final(case)@.edges == old(case)@.edges + e2o_edges(old(case)@.edges.len(), event_id, flat_tokens(binding@.infos)),
        final(stats).query_event_counts == old(stats).query_event_counts,
        final(stats).query_object_counts == old(stats).query_object_counts,
        counts_added(old(stats).edge_counts(), final(stats).edge_counts(), EdgeType::E2O, flat_tokens(binding@.infos).len()),
        final(stats).edge_counts().dom().subset_of(old(stats).edge_counts().dom().insert(EdgeType::E2O)),
{
    let ghost infos = binding@.infos;
    let ghost ne = case@.edges.len();
    let ghost e0 = count_of(stats.edge_counts(), EdgeType::E2O);
    let ghost start_edges = case@.edges;
    let ghost start_stats = *stats;
    let mut a: usize = 0;
    proof {
        assert(infos.take(0) =~= Seq::<ObjectBindingInfoView>::empty());
        assert(start_edges + e2o_edges(ne, event_id, flat_tokens(infos.take(0))) =~= start_edges);
    }
    while a < binding.object_binding_info.len()
        invariant
            a <= infos.len(),
            infos == binding@.infos,
            stats.wf(),
            case@.nodes == old(case)@.nodes,
            ne == old(case)@.edges.len(),
            start_edges == old(case)@.edges,
            start_stats == *old(stats),
            e0 == count_of(start_stats.edge_counts(), EdgeType::E2O),
            e0 + flat_tokens(infos).len() <= usize::MAX,
            ne + flat_tokens(infos).len() <= usize::MAX,
            case@.edges == start_edges + e2o_edges(ne, event_id, flat_tokens(infos.take(a as int))),
            stats.query_event_counts == start_stats.query_event_counts,
            stats.query_object_counts == start_stats.query_object_counts,
            counts_added(start_stats.edge_counts(), stats.edge_counts(), EdgeType::E2O, flat_tokens(infos.take(a as int)).len()),
            stats.edge_counts().dom().subset_of(start_stats.edge_counts().dom().insert(EdgeType::E2O)),
        decreases infos.len() - a,
    {
        let info = &binding.object_binding_info[a];
        let ghost done = flat_tokens(infos.take(a as int));
        proof {
            assert(infos.take(a + 1).drop_last() =~= infos.take(a as int));
            assert(infos[a as int].tokens == info.tokens@);
            assert(flat_tokens(infos.take(a + 1)) == done + info.tokens@);
            lemma_flat_prefix_len(infos, a as int + 1);
            assert(info.tokens@.take(0) =~= Seq::<crate::marking::OCToken>::empty());
            assert(done + info.tokens@.take(0) =~= done);
        }
        let mut k: usize = 0;
        while k < info.tokens.len()
            invariant
                a < infos.len(),
                info == &binding.object_binding_info[a as int],
                infos == binding@.infos,
                k <= info.tokens@.len(),
                stats.wf(),
                done == flat_tokens(infos.take(a as int)),
                done.len() + info.tokens@.len() <= flat_tokens(infos).len(),
                case@.nodes == old(case)@.nodes,
                ne == old(case)@.edges.len(),
                start_edges == old(case)@.edges,
                start_stats == *old(stats),
                e0 == count_of(start_stats.edge_counts(), EdgeType::E2O),
                e0 + flat_tokens(infos).len() <= usize::MAX,
                ne + flat_tokens(infos).len() <= usize::MAX,
                case@.edges == start_edges + e2o_edges(ne, event_id, done + info.tokens@.take(k as int)),
                stats.query_event_counts == start_stats.query_event_counts,
                stats.query_object_counts == start_stats.query_object_counts,
                counts_added(start_stats.edge_counts(), stats.edge_counts(), EdgeType::E2O, (done.len() + k) as nat),
                stats.edge_counts().dom().subset_of(start_stats.edge_counts().dom().insert(EdgeType::E2O)),
            decreases info.tokens.len() - k,
        {
            let token = info.tokens[k];
            let ghost before = done + info.tokens@.take(k as int);
            let ghost counts_before = stats.edge_counts();
            proof {
                assert(done + info.tokens@.take(k + 1) =~= before.push(token));
                assert(case@.edges.len() == ne + before.len());
                assert(count_of(counts_before, EdgeType::E2O) == e0 + done.len() + k);
            }
            let id = case.edges.len() + 1;
            case.add_edge(Edge::new(id, event_id, token.id, EdgeType::E2O));
            increment_edge_count(&mut stats.query_edge_counts, EdgeType::E2O);
            proof {
                assert(e2o_edges(ne, event_id, before.push(token)) =~= e2o_edges(ne, event_id, before).push(
                    EdgeView { id: (ne + before.len() + 1) as usize, from: event_id, to: token.id, edge_type: EdgeType::E2O },
                ));
                assert(case@.edges =~= start_edges + e2o_edges(ne, event_id, before.push(token)));
                assert forall|x: EdgeType| #[trigger] count_of(stats.edge_counts(), x) == count_of(start_stats.edge_counts(), x)
                    + if x == EdgeType::E2O { (done.len() + k + 1) as nat } else { 0 } by {
                    assert(count_of(counts_before, x) == count_of(start_stats.edge_counts(), x) + if x == EdgeType::E2O {
                        (done.len() + k) as nat
                    } else {
                        0
                    });
                }
            }
            k += 1;
        }
        proof {
            assert(info.tokens@.take(k as int) =~= info.tokens@);
        }
        a += 1;
    }
    proof {
        assert(infos.take(a as int) =~= infos);
    }
}

/// The tokens of the first `a` entries are among those of all entries.
proof fn lemma_flat_prefix_len(infos: Seq<ObjectBindingInfoView>, a: int)
    requires
        0 <= a <= infos.len(),
    ensures
        flat_tokens(infos.take(a)).len() <= flat_tokens(infos).len(),
    decreases infos.len() - a,
{
    if a < infos.len() {
        lemma_flat_prefix_len(infos, a + 1);
        assert(infos.take(a + 1).drop_last() =~= infos.take(a));
    } else {
        assert(infos.take(a) =~= infos);
    }
}

/// The child that fires `t` with binding `b`.
fn firing_child(node: &SearchNode, t: &Transition, b: &Binding, query: &CaseStats) -> (c: SearchNode)
    requires
        node.marking.wf(),
        binding_places_present(node.marking.tokens(), b@),
        types_distinct(b@.infos),
        fire_fits(node.marking.tokens(), *t, b@),
        node.partial_case_stats.wf(),
        query.wf(),
        firing_room(*node, *t, b@),
    ensures
        firing_child_of(*node, *query, *t, b@, c),
{
    let mut new_marking = node.marking.copy();
    new_marking.fire_transition(t, b);
    let mut case = node.partial_case.copy();
    let mut recent = node.most_recent_event_id;
    let mut stats = node.partial_case_stats.copy();
    let ghost old_stats = node.partial_case_stats;
    let ghost toks = flat_tokens(b@.infos);
    proof {
        crate::case_stats::lemma_count_map_dom(old_stats.query_event_counts@);
        crate::case_stats::lemma_count_map_dom(old_stats.query_object_counts@);
        crate::case_stats::lemma_count_map_dom(old_stats.query_edge_counts@);
    }
    if !t.silent {
        let event_id = case.nodes.len() + 1;
        case.add_node(Node::EventNode(Event { id: event_id, event_type: t.name.clone() }));
        let ghost mid_stats = stats;
        add_object_edges(&mut case, &mut stats, event_id, b);
        let ghost after_e2o = stats;
        match node.most_recent_event_id {
            Some(prev) => {
                assert(case@.edges.len() == node.partial_case@.edges.len() + toks.len());
                assert(case.edges@.len() == case@.edges.len());
                let id = case.edges.len() + 1;
                let ghost before = case@.edges;
                case.add_edge(Edge::new(id, prev, event_id, EdgeType::DF));
                increment_edge_count(&mut stats.query_edge_counts, EdgeType::DF);
            },
            None => {},
        }
        increment_name_count(&mut stats.query_event_counts, &t.name);
        recent = Some(event_id);
        proof {
            let ne = node.partial_case@.edges.len();
            assert(case@.edges =~= node.partial_case@.edges + e2o_edges(ne, event_id, toks) + df_edges(
                ne + toks.len(),
                node.most_recent_event_id,
                event_id,
            ));
            crate::case_stats::lemma_count_map_dom(after_e2o.query_edge_counts@);
            crate::case_stats::lemma_count_map_dom(stats.query_edge_counts@);
            crate::case_stats::lemma_count_map_dom(stats.query_event_counts@);
            vstd::set_lib::lemma_len_subset(
                after_e2o.edge_counts().dom(),
                old_stats.edge_counts().dom().insert(EdgeType::E2O),
            );
            assert forall|x: EdgeType| #[trigger] count_of(stats.edge_counts(), x) == count_of(old_stats.edge_counts(), x)
                + if x == EdgeType::E2O { toks.len() } else if x == EdgeType::DF && node.most_recent_event_id is Some { 1nat } else { 0nat } by {
                assert(count_of(after_e2o.edge_counts(), x) == count_of(old_stats.edge_counts(), x) + if x == EdgeType::E2O {
                    toks.len()
                } else {
                    0
                });
            }
        }
    }
    let action = SearchNodeAction::fire_transition(t.id, b.clone());
    let min_cost = calculate_min_cost(query, &stats);
    proof {
        reveal(firing_child_of);
    }
    SearchNode::new_with_stats(new_marking, case, min_cost, recent, action, stats)
}

/// How many token children a node gets: one per token place, if no transition fired into it.
pub open spec fn token_count(node: SearchNode, net: ObjectCentricPetriNet, counts: Seq<(String, usize)>) -> nat {
    if node.action@ is FireTransition {
        0
    } else {
        token_places(net, counts).len()
    }
}

/// Every transition of the net can be asked for its bindings in marking `m`.
#[verifier::opaque]
pub open spec fn transitions_askable(m: Map<u128, Multiset<crate::marking::OCToken>>, net: ObjectCentricPetriNet) -> bool {
    forall|i: int|
        0 <= i < net.transitions@.len() ==> transition_consistent(net, #[trigger] net.transitions@[i]) && variable_supports_fit(
            m,
            net,
            net.transitions@[i],
        )
}

/// Every child that fires `t` in `node` fits: the places can take the tokens, and the
/// counts and numbers of its case fit in a `usize`.
pub open spec fn firings_fit_for(node: SearchNode, t: Transition) -> bool {
    let m = node.marking.tokens();
    let net = node.marking.net();
    forall|es: Seq<Seq<crate::marking::OCToken>>, k: int|
        #![trigger firing_bindings(m, net, t, es)[k]]
        support_listing(m, net, t, es) && 0 <= k < firing_bindings(m, net, t, es).len() ==> fire_fits(
            m,
            t,
            firing_bindings(m, net, t, es)[k],
        ) && firing_room(node, t, firing_bindings(m, net, t, es)[k])
}

/// Every firing child of `node` fits, for every transition of `net`.
#[verifier::opaque]
pub open spec fn firings_fit(node: SearchNode, net: ObjectCentricPetriNet) -> bool {
    forall|i: int| 0 <= i < net.transitions@.len() ==> firings_fit_for(node, #[trigger] net.transitions@[i])
}

/// `cs` are the children that fire `t` in `node`: one for each binding of `t` in the
/// marking of `node`, in the order in which the bindings are listed.
#[verifier::opaque]
pub open spec fn firing_group(node: SearchNode, query: CaseStats, t: Transition, cs: Seq<SearchNode>) -> bool {
    let m = node.marking.tokens();
    let net = node.marking.net();
    exists|es: Seq<Seq<crate::marking::OCToken>>|
        #![trigger support_listing(m, net, t, es)]
        {
            &&& support_listing(m, net, t, es)
            &&& cs.len() == firing_bindings(m, net, t, es).len()
            &&& forall|k: int|
                0 <= k < cs.len() ==> firing_child_of(node, query, t, firing_bindings(m, net, t, es)[k], #[trigger] cs[k])
        }
}

/// The children that fire `t` in `node`, one for each binding of `t`.
fn firing_children(node: &SearchNode, t: &Transition, query: &CaseStats) -> (cs: Vec<SearchNode>)
    requires
        node.marking.wf(),
        node.partial_case_stats.wf(),
        query.wf(),
        transition_consistent(node.marking.net(), *t),
        variable_supports_fit(node.marking.tokens(), node.marking.net(), *t),
        firings_fit_for(*node, *t),
    ensures
        firing_group(*node, *query, *t, cs@),
{
    let ghost m = node.marking.tokens();
    let ghost net = node.marking.net();
    let combos = node.marking.get_firing_combinations(t);
    let ghost es = choose|es: Seq<Seq<crate::marking::OCToken>>|
        support_listing(m, net, *t, es) && combos@.map_values(|b: Binding| b@) == firing_bindings(m, net, *t, es);
    let ghost bs = firing_bindings(m, net, *t, es);
    let mut cs: Vec<SearchNode> = Vec::new();
    let mut k: usize = 0;
    while k < combos.len()
        invariant
            k <= combos@.len(),
            node.marking.wf(),
            node.partial_case_stats.wf(),
            query.wf(),
            m == node.marking.tokens(),
            net == node.marking.net(),
            support_listing(m, net, *t, es),
            variable_supports_fit(m, net, *t),
            firings_fit_for(*node, *t),
            bs == firing_bindings(m, net, *t, es),
            combos@.map_values(|b: Binding| b@) == bs,
            cs@.len() == k,
            forall|q: int| 0 <= q < k ==> firing_child_of(*node, *query, *t, bs[q], #[trigger] cs@[q]),
        decreases combos.len() - k,
    {
        proof {
            assert(combos@.map_values(|b: Binding| b@)[k as int] == combos@[k as int]@);
            lemma_bindings_places_present(m, net, *t, es, k as int);
            lemma_bindings_types_distinct(m, net, *t, es, k as int);
            assert(fire_fits(m, *t, bs[k as int]) && firing_room(*node, *t, bs[k as int]));
        }
        let c = firing_child(node, t, &combos[k], query);
        cs.push(c);
        k += 1;
    }
    proof {
        reveal(firing_group);
        assert(support_listing(m, net, *t, es));
    }
    cs
}

/// Every token child of `node` fits: counter, place and counts leave room for one more.
pub open spec fn tokens_fit(node: SearchNode, net: ObjectCentricPetriNet, counts: Seq<(String, usize)>) -> bool {
    forall|i: int|
        0 <= i < net.places@.len() && token_place(net, counts, #[trigger] net.places@[i]) ==> {
            &&& node.marking.next_id() < usize::MAX
            &&& tokens_at(node.marking.tokens(), net.places@[i].id).len() < usize::MAX
            &&& count_of(node.partial_case_stats.object_counts(), net.places@[i].object_type@) < usize::MAX
            &&& node.partial_case_stats.entries() < usize::MAX
        }
}

/// With distinct ids, the place with the id of place `i` is place `i`.
proof fn lemma_place_by_id(net: ObjectCentricPetriNet, i: int)
    requires
        place_ids_distinct(net),
        0 <= i < net.places@.len(),
    ensures
        net.has_place(net.places@[i].id),
        net.place(net.places@[i].id) == net.places@[i],
{
    let id = net.places@[i].id;
    assert(net.has_place(id));
    let k = net.place_index(id);
    assert(0 <= k < net.places@.len() && net.places@[k].id == id) by {
        assert(0 <= i < net.places@.len() && net.places@[i].id == id && forall|j: int| 0 <= j < i ==> net.places@[j].id != id);
    }
    if k != i {
        if k < i {
            assert(net.places@[k].id != net.places@[i].id);
        } else {
            assert(net.places@[i].id != net.places@[k].id);
        }
    }
}


/// The children of a search node. A node that no transition has fired into yet may get a
/// token in each initial place whose object type is not followed (in the order of type
/// names) by a type that already has tokens (`counts_per_type`). Then every transition
/// fires with each of its bindings. A node reached by a firing whose marking has dead
/// places (`dead_places_found`) has no children. Each child's cost bound is that of its
/// counts against `query`.
pub fn generate_children(
    model: &ObjectCentricPetriNet,
    node: &SearchNode,
    query: &CaseStats,
    counts_per_type: &Vec<(String, usize)>,
    dead_places_found: bool,
) -> (children: Vec<SearchNode>)
    requires
        node.marking.wf(),
        node.marking.net() == *model,
        place_ids_distinct(*model),
        node.partial_case_stats.wf(),
        query.wf(),
        keys_distinct(counts_per_type@),
        transitions_askable(node.marking.tokens(), *model),
        firings_fit(*node, *model),
        tokens_fit(*node, *model, counts_per_type@),
    ensures
        children_of(*node, *query, *model, counts_per_type@, dead_places_found, children@),
        forall|k: int|
            0 <= k < children@.len() ==> (#[trigger] children@[k]).min_cost == min_cost_spec(
                *query,
                children@[k].partial_case_stats,
            ),
        node.action@ is FireTransition ==> forall|k: int|
            0 <= k < children@.len() ==> (#[trigger] children@[k]).action@ is FireTransition,
        stats_match(node.partial_case_stats, node.partial_case@) ==> forall|k: int|
            0 <= k < children@.len() ==> stats_match(
                (#[trigger] children@[k]).partial_case_stats,
                children@[k].partial_case@,
            ),
{
    let ghost m = node.marking.tokens();
    let ghost counts = counts_per_type@;
    let pre = node.action.is_pre_firing();
    let mut children: Vec<SearchNode> = Vec::new();
    if pre {
        let mut i: usize = 0;
        while i < model.places.len()
            invariant
                i <= model.places@.len(),
                node.marking.wf(),
                node.marking.net() == *model,
                place_ids_distinct(*model),
                node.partial_case_stats.wf(),
                query.wf(),
                keys_distinct(counts_per_type@),
                counts == counts_per_type@,
                tokens_fit(*node, *model, counts_per_type@),
                children@.len() == model.places@.take(i as int).filter(|p: Place| token_place(*model, counts, p)).len(),
                forall|k: int|
                    0 <= k < children@.len() ==> token_child_of(
                        *node,
                        *query,
                        model.places@.take(i as int).filter(|p: Place| token_place(*model, counts, p))[k],
                        #[trigger] children@[k],
                    ),
            decreases model.places.len() - i,
        {
            let place = &model.places[i];
            let ghost before = model.places@.take(i as int).filter(|p: Place| token_place(*model, counts, p));
            proof {
                reveal_with_fuel(Seq::filter, 1);
                assert(model.places@.take(i + 1).drop_last() =~= model.places@.take(i as int));
                assert(model.places@.take(i + 1).last() == *place);
            }
            if place.initial && !check_higher_type_used(model, counts_per_type, &place.object_type) {
                proof {
                    lemma_place_by_id(*model, i as int);
                    assert(token_place(*model, counts, model.places@[i as int]));
                }
                let c = token_child(node, place, query);
                children.push(c);
                proof {
                    let after = model.places@.take(i + 1).filter(|p: Place| token_place(*model, counts, p));
                    assert(after == before.push(*place));
                    assert forall|k: int| 0 <= k < children@.len() implies token_child_of(
                        *node,
                        *query,
                        after[k],
                        #[trigger] children@[k],
                    ) by {
                        if k < before.len() {
                            assert(after[k] == before[k]);
                        }
                    }
                }
            } else {
                proof {
                    let after = model.places@.take(i + 1).filter(|p: Place| token_place(*model, counts, p));
                    assert(!token_place(*model, counts, *place));
                    assert(after == before);
                }
            }
            i += 1;
        }
        proof {
            assert(model.places@.take(i as int) =~= model.places@);
        }
    }
    let ghost tok = children@;
    let ghost mut groups: Seq<Seq<SearchNode>> = Seq::empty();
    let mut i: usize = 0;
    while i < model.transitions.len()
        invariant
            i <= model.transitions@.len(),
            node.marking.wf(),
            node.marking.net() == *model,
            m == node.marking.tokens(),
            node.partial_case_stats.wf(),
            query.wf(),
            transitions_askable(m, *model),
            firings_fit(*node, *model),
            groups.len() == i,
            children@ == tok + groups.flatten(),
            forall|j: int| 0 <= j < i ==> firing_group(*node, *query, model.transitions@[j], #[trigger] groups[j]),
        decreases model.transitions.len() - i,
    {
        let t = &model.transitions[i];
        proof {
            reveal(transitions_askable);
            reveal(firings_fit);
            assert(transition_consistent(*model, model.transitions@[i as int]));
            assert(firings_fit_for(*node, model.transitions@[i as int]));
        }
        let mut cs = firing_children(node, t, query);
        let ghost g = cs@;
        let ghost old_groups = groups;
        children.append(&mut cs);
        proof {
            groups = groups.push(g);
            old_groups.lemma_flatten_push(g);
            assert(children@ =~= tok + groups.flatten());
            assert forall|j: int| 0 <= j < i + 1 implies firing_group(
                *node,
                *query,
                model.transitions@[j],
                #[trigger] groups[j],
            ) by {
                if j < i {
                    assert(groups[j] == old_groups[j]);
                }
            }
        }
        i += 1;
    }
    if !pre && dead_places_found {
        return Vec::new();
    }
    proof {
        assert(tok.len() == token_count(*node, *model, counts));
        assert(children@.subrange(0, tok.len() as int) =~= tok);
        assert(children@.skip(tok.len() as int) =~= groups.flatten());
        assert forall|k: int| 0 <= k < tok.len() implies token_child_of(
            *node,
            *query,
            token_places(*model, counts)[k],
            #[trigger] children@[k],
        ) by {
            assert(children@[k] == tok[k]);
        }
        lemma_children_min_cost(*node, *query, *model, counts, dead_places_found, children@);
        if node.action@ is FireTransition {
            lemma_no_token_after_firing(*node, *query, *model, counts, dead_places_found, children@);
        }
        if stats_match(node.partial_case_stats, node.partial_case@) {
            lemma_children_stats_match(*node, *query, *model, counts, dead_places_found, children@);
        }
    }
    children
}

/// What the children of `node` are (see `generate_children`): none, if a firing led to
/// `node` and its marking has dead places; else first one token child per token place
/// (only if no firing led to `node`), then, transition by transition in the order of the
/// net, the children that fire it.
pub open spec fn children_of(
    node: SearchNode,
    query: CaseStats,
    net: ObjectCentricPetriNet,
    counts: Seq<(String, usize)>,
    dead_places_found: bool,
    cs: Seq<SearchNode>,
) -> bool {
    let n_tok = token_count(node, net, counts);
    if node.action@ is FireTransition && dead_places_found {
        cs.len() == 0
    } else {
        &&& n_tok <= cs.len()
        &&& forall|k: int| 0 <= k < n_tok ==> token_child_of(node, query, token_places(net, counts)[k], #[trigger] cs[k])
        &&& exists|groups: Seq<Seq<SearchNode>>|
            #![trigger groups.flatten()]
            {
                &&& groups.len() == net.transitions@.len()
                &&& cs.skip(n_tok as int) == groups.flatten()
                &&& forall|i: int| 0 <= i < groups.len() ==> firing_group(node, query, net.transitions@[i], #[trigger] groups[i])
            }
    }
}

/// Every item of a flattened sequence of groups is an item of one of the groups.
proof fn lemma_flatten_index(groups: Seq<Seq<SearchNode>>, j: int)
    requires
        0 <= j < groups.flatten().len(),
    ensures
        exists|i: int, q: int| 0 <= i < groups.len() && 0 <= q < groups[i].len() && groups.flatten()[j] == #[trigger] groups[i][q],
    decreases groups.len(),
{
    if groups.len() == 0 {
        assert(groups.flatten().len() == 0);
    } else {
        let first = groups.first();
        let rest = groups.drop_first();
        assert(groups.flatten() == first + rest.flatten());
        if j < first.len() {
            assert(groups.flatten()[j] == groups[0][j]);
        } else {
            lemma_flatten_index(rest, j - first.len());
            let (i, q) = choose|i: int, q: int|
                0 <= i < rest.len() && 0 <= q < rest[i].len() && rest.flatten()[j - first.len()] == #[trigger] rest[i][q];
            assert(rest[i] == groups[i + 1]);
            assert(groups.flatten()[j] == groups[i + 1][q]);
        }
    }
}

/// Each child of a node is one step from it: the first ones add a token to the token
/// places in turn, every later one fires a transition of the net with one of its bindings.
pub proof fn lemma_child_is_step(
    node: SearchNode,
    query: CaseStats,
    net: ObjectCentricPetriNet,
    counts: Seq<(String, usize)>,
    dead_places_found: bool,
    cs: Seq<SearchNode>,
    k: int,
)
    requires
        node.marking.net() == net,
        children_of(node, query, net, counts, dead_places_found, cs),
        0 <= k < cs.len(),
    ensures
        k < token_count(node, net, counts) ==> token_child_of(node, query, token_places(net, counts)[k], cs[k]),
        k >= token_count(node, net, counts) ==> exists|i: int, b: BindingView|
            0 <= i < net.transitions@.len() && #[trigger] firing_child_of(node, query, net.transitions@[i], b, cs[k]),
{
    let n_tok = token_count(node, net, counts);
    if k >= n_tok {
        let groups = choose|groups: Seq<Seq<SearchNode>>|
            {
                &&& groups.len() == net.transitions@.len()
                &&& cs.skip(n_tok as int) == #[trigger] groups.flatten()
                &&& forall|i: int| 0 <= i < groups.len() ==> firing_group(node, query, net.transitions@[i], #[trigger] groups[i])
            };
        assert(cs[k] == groups.flatten()[k - n_tok]);
        lemma_flatten_index(groups, k - n_tok);
        let (i, q) = choose|i: int, q: int|
            0 <= i < groups.len() && 0 <= q < groups[i].len() && groups.flatten()[k - n_tok] == #[trigger] groups[i][q];
        assert(firing_group(node, query, net.transitions@[i], groups[i]));
        reveal(firing_group);
        let m = node.marking.tokens();
        let t = net.transitions@[i];
        let es = choose|es: Seq<Seq<crate::marking::OCToken>>|
            {
                &&& #[trigger] support_listing(m, net, t, es)
                &&& groups[i].len() == firing_bindings(m, net, t, es).len()
                &&& forall|k: int|
                    0 <= k < groups[i].len() ==> firing_child_of(node, query, t, firing_bindings(m, net, t, es)[k], #[trigger] groups[i][k])
            };
        assert(firing_child_of(node, query, t, firing_bindings(m, net, t, es)[q], groups[i][q]));
    }
}

/// Each child's cost bound is that of its own counts against the query.
pub proof fn lemma_children_min_cost(
    node: SearchNode,
    query: CaseStats,
    net: ObjectCentricPetriNet,
    counts: Seq<(String, usize)>,
    dead_places_found: bool,
    cs: Seq<SearchNode>,
)
    requires
        node.marking.net() == net,
        children_of(node, query, net, counts, dead_places_found, cs),
    ensures
        forall|k: int| 0 <= k < cs.len() ==> (#[trigger] cs[k]).min_cost == min_cost_spec(query, cs[k].partial_case_stats),
{
    assert forall|k: int| 0 <= k < cs.len() implies (#[trigger] cs[k]).min_cost == min_cost_spec(
        query,
        cs[k].partial_case_stats,
    ) by {
        lemma_child_is_step(node, query, net, counts, dead_places_found, cs, k);
        reveal(token_child_of);
        reveal(firing_child_of);
        if k >= token_count(node, net, counts) {
            let (i, b) = choose|i: int, b: BindingView|
                0 <= i < net.transitions@.len() && #[trigger] firing_child_of(node, query, net.transitions@[i], b, cs[k]);
        }
    }
}

/// No token is added after a firing: every child of a node that a firing led to fires a
/// transition in turn.
pub proof fn lemma_no_token_after_firing(
    node: SearchNode,
    query: CaseStats,
    net: ObjectCentricPetriNet,
    counts: Seq<(String, usize)>,
    dead_places_found: bool,
    cs: Seq<SearchNode>,
)
    requires
        node.marking.net() == net,
        node.action@ is FireTransition,
        children_of(node, query, net, counts, dead_places_found, cs),
    ensures
        forall|k: int| 0 <= k < cs.len() ==> (#[trigger] cs[k]).action@ is FireTransition,
{
    assert forall|k: int| 0 <= k < cs.len() implies (#[trigger] cs[k]).action@ is FireTransition by {
        lemma_child_is_step(node, query, net, counts, dead_places_found, cs, k);
        reveal(firing_child_of);
        let (i, b) = choose|i: int, b: BindingView|
            0 <= i < net.transitions@.len() && #[trigger] firing_child_of(node, query, net.transitions@[i], b, cs[k]);
    }
}

/// How many nodes of `nodes` are events (`is_event`) or objects of type `ty`.
pub open spec fn node_count(nodes: Seq<NodeView>, is_event: bool, ty: Seq<char>) -> nat
    decreases nodes.len(),
{
    if nodes.len() == 0 {
        0
    } else {
        node_count(nodes.drop_last(), is_event, ty) + if nodes.last().is_event == is_event && nodes.last().node_type == ty {
            1nat
        } else {
            0nat
        }
    }
}

/// How many edges of `edges` are of type `x`.
pub open spec fn edge_total(edges: Seq<EdgeView>, x: EdgeType) -> nat
    decreases edges.len(),
{
    if edges.len() == 0 {
        0
    } else {
        edge_total(edges.drop_last(), x) + if edges.last().edge_type == x { 1nat } else { 0nat }
    }
}

/// The counts of `stats` are those of `case`: the events and the objects of each type,
/// and the edges of each type.
pub open spec fn stats_match(stats: CaseStats, case: CaseGraphView) -> bool {
    &&& forall|ty: Seq<char>| #[trigger] count_of(stats.event_counts(), ty) == node_count(case.nodes, true, ty)
    &&& forall|ty: Seq<char>| #[trigger] count_of(stats.object_counts(), ty) == node_count(case.nodes, false, ty)
    &&& forall|x: EdgeType| #[trigger] count_of(stats.edge_counts(), x) == edge_total(case.edges, x)
}

/// Edges are counted part by part.
proof fn lemma_edge_total_add(a: Seq<EdgeView>, b: Seq<EdgeView>, x: EdgeType)
    ensures
        edge_total(a + b, x) == edge_total(a, x) + edge_total(b, x),
    decreases b.len(),
{
    if b.len() == 0 {
        assert(a + b =~= a);
    } else {
        lemma_edge_total_add(a, b.drop_last(), x);
        assert((a + b).drop_last() =~= a + b.drop_last());
    }
}

/// The event-to-object edges of a firing are one per token.
proof fn lemma_e2o_total(start: nat, event: usize, toks: Seq<crate::marking::OCToken>, x: EdgeType)
    ensures
        edge_total(e2o_edges(start, event, toks), x) == if x == EdgeType::E2O { toks.len() } else { 0 },
    decreases toks.len(),
{
    if toks.len() > 0 {
        lemma_e2o_total(start, event, toks.drop_last(), x);
        assert(e2o_edges(start, event, toks).drop_last() =~= e2o_edges(start, event, toks.drop_last()));
    }
}

/// A directly-follows edge is added only after an earlier event.
proof fn lemma_df_total(start: nat, prev: Option<usize>, event: usize, x: EdgeType)
    ensures
        edge_total(df_edges(start, prev, event), x) == if x == EdgeType::DF && prev is Some { 1nat } else { 0nat },
{
    let d = df_edges(start, prev, event);
    if prev is Some {
        assert(d.drop_last() =~= Seq::<EdgeView>::empty());
        assert(edge_total(d.drop_last(), x) == 0);
    }
}

/// A token child keeps the counts matching its case.
proof fn lemma_token_child_stats(node: SearchNode, query: CaseStats, p: Place, c: SearchNode)
    requires
        token_child_of(node, query, p, c),
        stats_match(node.partial_case_stats, node.partial_case@),
    ensures
        stats_match(c.partial_case_stats, c.partial_case@),
{
    reveal(token_child_of);
    let nodes = node.partial_case@.nodes;
    let n = NodeView { is_event: false, id: node.marking.next_id() as usize, node_type: p.object_type@ };
    assert(nodes.push(n).drop_last() =~= nodes);
    assert forall|ty: Seq<char>| #[trigger] count_of(c.partial_case_stats.event_counts(), ty) == node_count(
        c.partial_case@.nodes,
        true,
        ty,
    ) by {
        assert(count_of(node.partial_case_stats.event_counts(), ty) == node_count(nodes, true, ty));
    }
    assert forall|ty: Seq<char>| #[trigger] count_of(c.partial_case_stats.object_counts(), ty) == node_count(
        c.partial_case@.nodes,
        false,
        ty,
    ) by {
        assert(count_of(node.partial_case_stats.object_counts(), ty) == node_count(nodes, false, ty));
    }
}

/// A firing child keeps the counts matching its case.
proof fn lemma_firing_child_stats(node: SearchNode, query: CaseStats, t: Transition, b: BindingView, c: SearchNode)
    requires
        firing_child_of(node, query, t, b, c),
        stats_match(node.partial_case_stats, node.partial_case@),
    ensures
        stats_match(c.partial_case_stats, c.partial_case@),
{
    reveal(firing_child_of);
    if !t.silent {
        let old_stats = node.partial_case_stats;
        let stats = c.partial_case_stats;
        let nodes = node.partial_case@.nodes;
        let ev = (nodes.len() + 1) as usize;
        let n = NodeView { is_event: true, id: ev, node_type: t.name@ };
        let toks = flat_tokens(b.infos);
        let edges = node.partial_case@.edges;
        let ne = edges.len();
        let e2o = e2o_edges(ne, ev, toks);
        let df = df_edges(ne + toks.len(), node.most_recent_event_id, ev);
        assert(nodes.push(n).drop_last() =~= nodes);
        assert forall|x: EdgeType| #[trigger] edge_total(c.partial_case@.edges, x) == edge_total(edges, x) + edge_total(e2o, x)
            + edge_total(df, x) by {
            lemma_edge_total_add(edges + e2o, df, x);
            lemma_edge_total_add(edges, e2o, x);
        }
        assert forall|x: EdgeType| #[trigger] count_of(stats.edge_counts(), x) == edge_total(c.partial_case@.edges, x) by {
            lemma_e2o_total(ne, ev, toks, x);
            lemma_df_total(ne + toks.len(), node.most_recent_event_id, ev, x);
            assert(count_of(old_stats.edge_counts(), x) == edge_total(edges, x));
            assert(edge_total(c.partial_case@.edges, x) == edge_total(edges, x) + edge_total(e2o, x) + edge_total(df, x));
        }
        assert forall|ty: Seq<char>| #[trigger] count_of(stats.event_counts(), ty) == node_count(
            c.partial_case@.nodes,
            true,
            ty,
        ) by {
            assert(count_of(old_stats.event_counts(), ty) == node_count(nodes, true, ty));
        }
        assert forall|ty: Seq<char>| #[trigger] count_of(stats.object_counts(), ty) == node_count(
            c.partial_case@.nodes,
            false,
            ty,
        ) by {
            assert(count_of(old_stats.object_counts(), ty) == node_count(nodes, false, ty));
        }
    }
}

/// Where the counts of a node match its case, those of every child match the child's case.
pub proof fn lemma_children_stats_match(
    node: SearchNode,
    query: CaseStats,
    net: ObjectCentricPetriNet,
    counts: Seq<(String, usize)>,
    dead_places_found: bool,
    cs: Seq<SearchNode>,
)
    requires
        node.marking.net() == net,
        children_of(node, query, net, counts, dead_places_found, cs),
        stats_match(node.partial_case_stats, node.partial_case@),
    ensures
        forall|k: int| 0 <= k < cs.len() ==> stats_match((#[trigger] cs[k]).partial_case_stats, cs[k].partial_case@),
{
    assert forall|k: int| 0 <= k < cs.len() implies stats_match((#[trigger] cs[k]).partial_case_stats, cs[k].partial_case@) by {
        lemma_child_is_step(node, query, net, counts, dead_places_found, cs, k);
        if k < token_count(node, net, counts) {
            lemma_token_child_stats(node, query, token_places(net, counts)[k], cs[k]);
        } else {
            let (i, b) = choose|i: int, b: BindingView|
                0 <= i < net.transitions@.len() && #[trigger] firing_child_of(node, query, net.transitions@[i], b, cs[k]);
            lemma_firing_child_stats(node, query, net.transitions@[i], b, cs[k]);
        }
    }
}

/// How many tokens the entries `infos` bind, entry by entry.
pub open spec fn bound_token_total(infos: Seq<ObjectBindingInfoView>) -> nat
    decreases infos.len(),
{
    if infos.len() == 0 {
        0
    } else {
        bound_token_total(infos.drop_last()) + infos.last().tokens.len()
    }
}

/// The id of the last event node of `nodes`, if there is one.
pub open spec fn last_event(nodes: Seq<NodeView>) -> Option<usize>
    decreases nodes.len(),
{
    if nodes.len() == 0 {
        None
    } else if nodes.last().is_event {
        Some(nodes.last().id)
    } else {
        last_event(nodes.drop_last())
    }
}

/// The node's most recent event is the last event of its case.
pub open spec fn recent_tracks(node: SearchNode) -> bool {
    node.most_recent_event_id == last_event(node.partial_case@.nodes)
}

/// Token `k` of entry `i` stands in the flattened tokens at the place after those of the
/// earlier entries.
proof fn lemma_flat_tokens_index(infos: Seq<ObjectBindingInfoView>, i: int, k: int)
    requires
        0 <= i < infos.len(),
        0 <= k < infos[i].tokens.len(),
    ensures
        flat_tokens(infos).len() == bound_token_total(infos),
        exists|q: int| 0 <= q < flat_tokens(infos).len() && #[trigger] flat_tokens(infos)[q] == infos[i].tokens[k],
    decreases infos.len(),
{
    let pre = infos.drop_last();
    lemma_flat_tokens_total(infos);
    if i < infos.len() - 1 {
        lemma_flat_tokens_index(pre, i, k);
        assert(pre[i] == infos[i]);
        let q = choose|q: int| 0 <= q < flat_tokens(pre).len() && #[trigger] flat_tokens(pre)[q] == pre[i].tokens[k];
        assert(flat_tokens(infos) == flat_tokens(pre) + infos.last().tokens);
        assert(flat_tokens(infos)[q] == flat_tokens(pre)[q]);
    } else {
        let q = flat_tokens(pre).len() + k;
        assert(flat_tokens(infos) == flat_tokens(pre) + infos.last().tokens);
        assert(flat_tokens(infos)[q] == infos[i].tokens[k]);
    }
}

/// The flattened tokens are as many as the entries bind together.
proof fn lemma_flat_tokens_total(infos: Seq<ObjectBindingInfoView>)
    ensures
        flat_tokens(infos).len() == bound_token_total(infos),
    decreases infos.len(),
{
    if infos.len() > 0 {
        lemma_flat_tokens_total(infos.drop_last());
    }
}

/// A visible firing adds one event to the case and links it by an event-to-object edge
/// to every token that the binding binds, of every object type; the count of
/// event-to-object edges rises by the number of those tokens, and that of events of the
/// transition's name by one.
pub proof fn lemma_firing_links_every_token(
    node: SearchNode,
    query: CaseStats,
    t: Transition,
    b: BindingView,
    c: SearchNode,
    i: int,
    k: int,
)
    requires
        firing_child_of(node, query, t, b, c),
        !t.silent,
        0 <= i < b.infos.len(),
        0 <= k < b.infos[i].tokens.len(),
    ensures
        c.partial_case@.nodes.len() == node.partial_case@.nodes.len() + 1,
        c.partial_case@.nodes.last().is_event,
        c.partial_case@.nodes.last().node_type == t.name@,
        exists|e: int|
            0 <= e < c.partial_case@.edges.len() && (#[trigger] c.partial_case@.edges[e]).edge_type == EdgeType::E2O
                && c.partial_case@.edges[e].from == c.partial_case@.nodes.last().id && c.partial_case@.edges[e].to
                == b.infos[i].tokens[k].id,
        count_of(c.partial_case_stats.edge_counts(), EdgeType::E2O) == count_of(
            node.partial_case_stats.edge_counts(),
            EdgeType::E2O,
        ) + bound_token_total(b.infos),
        count_of(c.partial_case_stats.event_counts(), t.name@) == count_of(node.partial_case_stats.event_counts(), t.name@)
            + 1,
{
    reveal(firing_child_of);
    let toks = flat_tokens(b.infos);
    let ne = node.partial_case@.edges.len();
    let ev = (node.partial_case@.nodes.len() + 1) as usize;
    lemma_flat_tokens_index(b.infos, i, k);
    let q = choose|q: int| 0 <= q < toks.len() && #[trigger] toks[q] == b.infos[i].tokens[k];
    let e2o = e2o_edges(ne, ev, toks);
    let df = df_edges(ne + toks.len(), node.most_recent_event_id, ev);
    let edges = c.partial_case@.edges;
    assert(edges == node.partial_case@.edges + e2o + df);
    assert(edges[ne + q] == e2o[q]);
    assert(count_of(c.partial_case_stats.edge_counts(), EdgeType::E2O) == count_of(
        node.partial_case_stats.edge_counts(),
        EdgeType::E2O,
    ) + toks.len());
}

/// Firing keeps the most recent event that of the case: a silent firing keeps both the
/// case and its most recent event, a visible one makes its new event the most recent.
pub proof fn lemma_firing_keeps_recent(node: SearchNode, query: CaseStats, t: Transition, b: BindingView, c: SearchNode)
    requires
        firing_child_of(node, query, t, b, c),
        recent_tracks(node),
    ensures
        recent_tracks(c),
        t.silent ==> c.partial_case@ == node.partial_case@ && c.most_recent_event_id == node.most_recent_event_id,
{
    reveal(firing_child_of);
    if !t.silent {
        let nodes = node.partial_case@.nodes;
        let ev = (nodes.len() + 1) as usize;
        let n = NodeView { is_event: true, id: ev, node_type: t.name@ };
        assert(c.partial_case@.nodes == nodes.push(n));
        assert(c.partial_case@.nodes.last() == n);
    }
}

/// A visible firing links its new event by a directly-follows edge to the last event of
/// the case before it, where there is one, and counts that edge; where the case has no
/// event yet, no directly-follows edge is added or counted.
pub proof fn lemma_firing_follows_last_event(
    node: SearchNode,
    query: CaseStats,
    t: Transition,
    b: BindingView,
    c: SearchNode,
)
    requires
        firing_child_of(node, query, t, b, c),
        recent_tracks(node),
        !t.silent,
    ensures
        match last_event(node.partial_case@.nodes) {
            Some(prev) => {
                &&& exists|e: int|
                    0 <= e < c.partial_case@.edges.len() && (#[trigger] c.partial_case@.edges[e]).edge_type == EdgeType::DF
                        && c.partial_case@.edges[e].from == prev && c.partial_case@.edges[e].to
                        == c.partial_case@.nodes.last().id
                &&& count_of(c.partial_case_stats.edge_counts(), EdgeType::DF) == count_of(
                    node.partial_case_stats.edge_counts(),
                    EdgeType::DF,
                ) + 1
            },
            None => count_of(c.partial_case_stats.edge_counts(), EdgeType::DF) == count_of(
                node.partial_case_stats.edge_counts(),
                EdgeType::DF,
            ),
        },
{
    reveal(firing_child_of);
    let nodes = node.partial_case@.nodes;
    let ev = (nodes.len() + 1) as usize;
    let n = NodeView { is_event: true, id: ev, node_type: t.name@ };
    assert(c.partial_case@.nodes == nodes.push(n));
    assert(c.partial_case@.nodes.last() == n);
    let toks = flat_tokens(b.infos);
    let ne = node.partial_case@.edges.len();
    let e2o = e2o_edges(ne, ev, toks);
    let df = df_edges(ne + toks.len(), node.most_recent_event_id, ev);
    let edges = c.partial_case@.edges;
    assert(edges == node.partial_case@.edges + e2o + df);
    assert(count_of(c.partial_case_stats.edge_counts(), EdgeType::DF) == count_of(
        node.partial_case_stats.edge_counts(),
        EdgeType::DF,
    ) + if node.most_recent_event_id is Some { 1nat } else { 0nat });
    if let Some(prev) = node.most_recent_event_id {
        assert(edges[(ne + toks.len()) as int] == df[0]);
    }
}

/// A token child adds exactly one new token to its place, with the id the node's counter
/// gives next, and an object node of the place's type with that id to the case; it counts
/// one more object of that type, and every other place keeps its tokens.
pub proof fn lemma_token_child_adds_one(node: SearchNode, query: CaseStats, p: Place, c: SearchNode)
    requires
        token_child_of(node, query, p, c),
        node.marking.next_id() < usize::MAX,
    ensures
        ({
            let m = node.marking.tokens();
            let x = crate::marking::OCToken { id: node.marking.next_id() as usize };
            &&& tokens_at(c.marking.tokens(), p.id).count(x) == tokens_at(m, p.id).count(x) + 1
            &&& tokens_at(c.marking.tokens(), p.id).len() == tokens_at(m, p.id).len() + 1
            &&& forall|q: u128| q != p.id ==> #[trigger] tokens_at(c.marking.tokens(), q) == tokens_at(m, q)
            &&& c.partial_case@.nodes.len() == node.partial_case@.nodes.len() + 1
            &&& c.partial_case@.nodes.last() == (NodeView { is_event: false, id: x.id, node_type: p.object_type@ })
            &&& c.partial_case@.edges == node.partial_case@.edges
            &&& count_of(c.partial_case_stats.object_counts(), p.object_type@) == count_of(
                node.partial_case_stats.object_counts(),
                p.object_type@,
            ) + 1
        }),
{
    broadcast use vstd::multiset::group_multiset_axioms;

    reveal(token_child_of);
    let m = node.marking.tokens();
    let x = crate::marking::OCToken { id: node.marking.next_id() as usize };
    crate::marking::lemma_fresh_tokens_count(node.marking.next_id(), 1, x);
}

} // verus!
