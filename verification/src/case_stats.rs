//! Counts of what a case holds (events per type, objects per type, edges per kind), and
//! the lower bound on the cost of aligning a partial case with a query case that they give.
use vstd::prelude::*;

verus! {

/// The kinds of edge in a case graph.
#[derive(Debug, Clone, Copy, PartialEq, Eq, Hash, Structural)]
pub enum EdgeType {
    /// An event directly follows another.
    DF,
    /// An object is related to another.
    O2O,
    /// An event involves an object.
    E2O,
}

impl View for EdgeType {
    type V = EdgeType;

    open spec fn view(&self) -> EdgeType {
        *self
    }
}

/// How often each event type, object type and edge kind occurs in a case.
/// Each list names a key at most once; a key that is not listed occurs zero times.
pub struct CaseStats {
    pub query_event_counts: Vec<(String, usize)>,
    pub query_object_counts: Vec<(String, usize)>,
    pub query_edge_counts: Vec<(EdgeType, usize)>,
}

/// The count of each key of `entries`.
pub open spec fn count_map<K: View>(entries: Seq<(K, usize)>) -> Map<K::V, nat>
    decreases entries.len(),
{
    if entries.len() == 0 {
        Map::empty()
    } else {
        let last = entries.last();
        count_map(entries.drop_last()).insert(last.0@, last.1 as nat)
    }
}

/// No key occurs twice in `entries`.
pub open spec fn keys_distinct<K: View>(entries: Seq<(K, usize)>) -> bool {
    forall|i: int, j: int| 0 <= i < j < entries.len() ==> (#[trigger] entries[i]).0@ != (#[trigger] entries[j]).0@
}

/// The count of `k` in `m`, zero where `m` does not list it.
pub open spec fn count_of<K>(m: Map<K, nat>, k: K) -> nat {
    if m.contains_key(k) {
        m[k]
    } else {
        0
    }
}

/// `a - b`, or zero where `b` is larger.
pub open spec fn excess_of(a: nat, b: nat) -> nat {
    if a > b {
        (a - b) as nat
    } else {
        0
    }
}

/// By how much the counts of `partial` exceed those of `query`, summed over the keys of `partial`.
pub open spec fn excess<K: View>(partial: Seq<(K, usize)>, query: Map<K::V, nat>) -> nat
    decreases partial.len(),
{
    if partial.len() == 0 {
        0
    } else {
        let last = partial.last();
        excess(partial.drop_last(), query) + excess_of(last.1 as nat, count_of(query, last.0@))
    }
}

impl CaseStats {
    /// Each list names a key at most once.
    pub open spec fn wf(&self) -> bool {
        &&& keys_distinct(self.query_event_counts@)
        &&& keys_distinct(self.query_object_counts@)
        &&& keys_distinct(self.query_edge_counts@)
    }

    pub open spec fn event_counts(&self) -> Map<Seq<char>, nat> {
        count_map(self.query_event_counts@)
    }

    pub open spec fn object_counts(&self) -> Map<Seq<char>, nat> {
        count_map(self.query_object_counts@)
    }

    pub open spec fn edge_counts(&self) -> Map<EdgeType, nat> {
        count_map(self.query_edge_counts@)
    }

    /// How many entries the three lists hold together.
    pub open spec fn entries(&self) -> nat {
        self.query_event_counts@.len() + self.query_object_counts@.len() + self.query_edge_counts@.len()
    }
}

/// The lower bound on the alignment cost that `partial` already incurs against `query`:
/// every event, object or edge that `partial` has beyond `query` costs one.
pub open spec fn min_cost_spec(query: CaseStats, partial: CaseStats) -> nat {
    excess(partial.query_event_counts@, query.event_counts()) + excess(partial.query_object_counts@, query.object_counts())
        + excess(partial.query_edge_counts@, query.edge_counts())
}

/// The count that the map of `entries` gives `k` is that of the last entry for `k`.
proof fn lemma_count_map_lookup<K: View>(entries: Seq<(K, usize)>, k: K::V)
    requires
        keys_distinct(entries),
    ensures
        forall|i: int| 0 <= i < entries.len() && (#[trigger] entries[i]).0@ == k ==> count_of(count_map(entries), k) == entries[i].1,
        (forall|i: int| 0 <= i < entries.len() ==> (#[trigger] entries[i]).0@ != k) ==> count_of(count_map(entries), k) == 0,
    decreases entries.len(),
{
    if entries.len() > 0 {
        let init = entries.drop_last();
        assert(keys_distinct(init)) by {
            assert forall|i: int, j: int| 0 <= i < j < init.len() implies (#[trigger] init[i]).0@ != (#[trigger] init[j]).0@ by {
                assert(init[i] == entries[i] && init[j] == entries[j]);
            }
        }
        lemma_count_map_lookup(init, k);
        assert forall|i: int| 0 <= i < entries.len() && (#[trigger] entries[i]).0@ == k implies count_of(count_map(entries), k)
            == entries[i].1 by {
            if i < entries.len() - 1 {
                assert(init[i] == entries[i]);
                assert(entries[i].0@ != entries[entries.len() - 1].0@);
            }
        }
        if forall|i: int| 0 <= i < entries.len() ==> (#[trigger] entries[i]).0@ != k {
            assert forall|i: int| 0 <= i < init.len() implies (#[trigger] init[i]).0@ != k by {
                assert(init[i] == entries[i]);
            }
            assert(entries[entries.len() - 1].0@ != k);
        }
    }
}

/// The excess over `n` entries is at most `n` times the largest count.
proof fn lemma_excess_bound<K: View>(partial: Seq<(K, usize)>, query: Map<K::V, nat>)
    ensures
        excess(partial, query) <= partial.len() * (usize::MAX as nat),
    decreases partial.len(),
{
    if partial.len() > 0 {
        lemma_excess_bound(partial.drop_last(), query);
        let n = partial.len() as int;
        assert((n - 1) * (usize::MAX as int) + (usize::MAX as int) == n * (usize::MAX as int)) by (nonlinear_arith);
    }
}

/// The count that `entries` gives `key`, zero where it is not listed.
pub fn name_count(entries: &Vec<(String, usize)>, key: &String) -> (r: usize)
    requires
        keys_distinct(entries@),
    ensures
        r == count_of(count_map(entries@), key@),
{
    let mut i: usize = 0;
    while i < entries.len()
        invariant
            i <= entries@.len(),
            keys_distinct(entries@),
            forall|j: int| 0 <= j < i ==> (#[trigger] entries@[j]).0@ != key@,
        decreases entries.len() - i,
    {
        if entries[i].0 == *key {
            proof {
                lemma_count_map_lookup(entries@, key@);
            }
            return entries[i].1;
        }
        i += 1;
    }
    proof {
        lemma_count_map_lookup(entries@, key@);
    }
    0
}

/// The count that `entries` gives `key`, zero where it is not listed.
pub fn edge_count(entries: &Vec<(EdgeType, usize)>, key: EdgeType) -> (r: usize)
    requires
        keys_distinct(entries@),
    ensures
        r == count_of(count_map(entries@), key),
{
    let mut i: usize = 0;
    while i < entries.len()
        invariant
            i <= entries@.len(),
            keys_distinct(entries@),
            forall|j: int| 0 <= j < i ==> (#[trigger] entries@[j]).0@ != key,
        decreases entries.len() - i,
    {
        if entries[i].0 == key {
            proof {
                lemma_count_map_lookup(entries@, key);
            }
            return entries[i].1;
        }
        i += 1;
    }
    proof {
        lemma_count_map_lookup(entries@, key);
    }
    0
}

/// The lower bound on the alignment cost that `partial_case_stats` already incurs against
/// `query_case_stats`: for each event type, object type and edge kind that the partial case
/// has more often than the query, the difference, summed up.
pub fn calculate_min_cost(query_case_stats: &CaseStats, partial_case_stats: &CaseStats) -> (total_cost: u128)
    requires
        query_case_stats.wf(),
        partial_case_stats.entries() <= usize::MAX,
    ensures
        total_cost == min_cost_spec(*query_case_stats, *partial_case_stats),
{
    let ghost bound = usize::MAX as nat;
    let ghost n_events = partial_case_stats.query_event_counts@.len();
    let ghost n_objects = partial_case_stats.query_object_counts@.len();
    let ghost n_edges = partial_case_stats.query_edge_counts@.len();
    proof {
        lemma_excess_bound(partial_case_stats.query_event_counts@, query_case_stats.event_counts());
        lemma_excess_bound(partial_case_stats.query_object_counts@, query_case_stats.object_counts());
        lemma_excess_bound(partial_case_stats.query_edge_counts@, query_case_stats.edge_counts());
        assert((n_events + n_objects + n_edges) * bound <= bound * bound) by (nonlinear_arith)
            requires
                n_events + n_objects + n_edges <= bound,
        ;
        assert(bound * bound < 0x1_0000_0000_0000_0000_0000_0000_0000_0000) by (nonlinear_arith)
            requires
                bound < 0x1_0000_0000_0000_0000,
        ;
        assert(n_events * bound + n_objects * bound + n_edges * bound == (n_events + n_objects + n_edges) * bound)
            by (nonlinear_arith);
    }
    let mut total_cost: u128 = 0;

    let events = &partial_case_stats.query_event_counts;
    let mut i: usize = 0;
    while i < events.len()
        invariant
            i <= events@.len(),
            query_case_stats.wf(),
            bound == usize::MAX as nat,
            n_events * bound <= bound * bound,
            bound * bound < 0x1_0000_0000_0000_0000_0000_0000_0000_0000,
            n_events == events@.len(),
            total_cost == excess(events@.take(i as int), query_case_stats.event_counts()),
        decreases events.len() - i,
    {
        proof {
            lemma_excess_bound(events@.take(i + 1), query_case_stats.event_counts());
            assert(events@.take(i + 1).drop_last() =~= events@.take(i as int));
            assert((i + 1) * bound <= n_events * bound) by (nonlinear_arith)
                requires
                    i < n_events,
            ;
        }
        let partial_count = events[i].1;
        let query_count = name_count(&query_case_stats.query_event_counts, &events[i].0);
        if partial_count > query_count {
            total_cost = total_cost + (partial_count - query_count) as u128;
        }
        i += 1;
    }
    proof {
        assert(events@.take(i as int) =~= events@);
    }
    let ghost after_events = total_cost;

    let objects = &partial_case_stats.query_object_counts;
    let mut i: usize = 0;
    while i < objects.len()
        invariant
            i <= objects@.len(),
            query_case_stats.wf(),
            bound == usize::MAX as nat,
            after_events <= n_events * bound,
            n_events * bound + n_objects * bound <= bound * bound,
            bound * bound < 0x1_0000_0000_0000_0000_0000_0000_0000_0000,
            n_objects == objects@.len(),
            total_cost == after_events + excess(objects@.take(i as int), query_case_stats.object_counts()),
        decreases objects.len() - i,
    {
        proof {
            lemma_excess_bound(objects@.take(i + 1), query_case_stats.object_counts());
            assert(objects@.take(i + 1).drop_last() =~= objects@.take(i as int));
            assert(excess(objects@.take(i + 1), query_case_stats.object_counts()) == excess(objects@.take(i as int), query_case_stats.object_counts())
                + excess_of(objects@[i as int].1 as nat, count_of(query_case_stats.object_counts(), objects@[i as int].0@)));
            assert((i + 1) * bound <= n_objects * bound) by (nonlinear_arith)
                requires
                    i < n_objects,
            ;
        }
        proof {
            let e = excess(objects@.take(i + 1), query_case_stats.object_counts());
            assert(e <= (i + 1) * bound);
            assert(after_events + e < 0x1_0000_0000_0000_0000_0000_0000_0000_0000);
        }
        let partial_count = objects[i].1;
        let query_count = name_count(&query_case_stats.query_object_counts, &objects[i].0);
        if partial_count > query_count {
            total_cost = total_cost + (partial_count - query_count) as u128;
        }
        i += 1;
    }
    proof {
        assert(objects@.take(i as int) =~= objects@);
    }
    let ghost after_objects = total_cost;

    let edges = &partial_case_stats.query_edge_counts;
    let mut i: usize = 0;
    while i < edges.len()
        invariant
            i <= edges@.len(),
            query_case_stats.wf(),
            bound == usize::MAX as nat,
            after_objects <= n_events * bound + n_objects * bound,
            n_events * bound + n_objects * bound + n_edges * bound <= bound * bound,
            bound * bound < 0x1_0000_0000_0000_0000_0000_0000_0000_0000,
            n_edges == edges@.len(),
            total_cost == after_objects + excess(edges@.take(i as int), query_case_stats.edge_counts()),
        decreases edges.len() - i,
    {
        proof {
            lemma_excess_bound(edges@.take(i + 1), query_case_stats.edge_counts());
            assert(edges@.take(i + 1).drop_last() =~= edges@.take(i as int));
            assert(excess(edges@.take(i + 1), query_case_stats.edge_counts()) == excess(edges@.take(i as int), query_case_stats.edge_counts())
                + excess_of(edges@[i as int].1 as nat, count_of(query_case_stats.edge_counts(), edges@[i as int].0@)));
            assert((i + 1) * bound <= n_edges * bound) by (nonlinear_arith)
                requires
                    i < n_edges,
            ;
        }
        proof {
            let e = excess(edges@.take(i + 1), query_case_stats.edge_counts());
            assert(e <= (i + 1) * bound);
            assert(after_objects + e < 0x1_0000_0000_0000_0000_0000_0000_0000_0000);
        }
        let partial_count = edges[i].1;
        let query_count = edge_count(&query_case_stats.query_edge_counts, edges[i].0);
        if partial_count > query_count {
            total_cost = total_cost + (partial_count - query_count) as u128;
        }
        i += 1;
    }
    proof {
        assert(edges@.take(i as int) =~= edges@);
    }
    total_cost
}


/// No entry of `partial` has a larger count than `query` gives its key.
pub open spec fn within<K: View>(partial: Seq<(K, usize)>, query: Map<K::V, nat>) -> bool {
    forall|i: int| 0 <= i < partial.len() ==> (#[trigger] partial[i]).1 <= count_of(query, partial[i].0@)
}

proof fn lemma_excess_zero<K: View>(partial: Seq<(K, usize)>, query: Map<K::V, nat>)
    ensures
        excess(partial, query) == 0 <==> within(partial, query),
    decreases partial.len(),
{
    if partial.len() > 0 {
        let init = partial.drop_last();
        lemma_excess_zero(init, query);
        if within(partial, query) {
            assert forall|i: int| 0 <= i < init.len() implies (#[trigger] init[i]).1 <= count_of(query, init[i].0@) by {
                assert(init[i] == partial[i]);
            }
            assert(partial[partial.len() - 1].1 <= count_of(query, partial[partial.len() - 1].0@));
        }
        if excess(partial, query) == 0 {
            assert forall|i: int| 0 <= i < partial.len() implies (#[trigger] partial[i]).1 <= count_of(query, partial[i].0@) by {
                if i < partial.len() - 1 {
                    assert(init[i] == partial[i]);
                }
            }
        }
    }
}

/// The cost bound is zero exactly when the partial case has no event type, object type
/// or edge kind more often than the query case.
pub proof fn lemma_min_cost_zero(query: CaseStats, partial: CaseStats)
    ensures
        min_cost_spec(query, partial) == 0 <==> (within(partial.query_event_counts@, query.event_counts()) && within(
            partial.query_object_counts@,
            query.object_counts(),
        ) && within(partial.query_edge_counts@, query.edge_counts())),
{
    lemma_excess_zero(partial.query_event_counts@, query.event_counts());
    lemma_excess_zero(partial.query_object_counts@, query.object_counts());
    lemma_excess_zero(partial.query_edge_counts@, query.edge_counts());
}

/// A case incurs no cost against itself.
pub proof fn lemma_min_cost_self(stats: CaseStats)
    requires
        stats.wf(),
    ensures
        min_cost_spec(stats, stats) == 0,
{
    lemma_count_map_lookup_all(stats.query_event_counts@);
    lemma_count_map_lookup_all(stats.query_object_counts@);
    lemma_count_map_lookup_all(stats.query_edge_counts@);
    lemma_min_cost_zero(stats, stats);
}

proof fn lemma_count_map_lookup_all<K: View>(entries: Seq<(K, usize)>)
    requires
        keys_distinct(entries),
    ensures
        within(entries, count_map(entries)),
{
    assert forall|i: int| 0 <= i < entries.len() implies (#[trigger] entries[i]).1 <= count_of(count_map(entries), entries[i].0@) by {
        lemma_count_map_lookup(entries, entries[i].0@);
    }
}

/// Setting the count of a listed key changes the count of that key only.
proof fn lemma_count_map_update<K: View>(entries: Seq<(K, usize)>, i: int, v: usize)
    requires
        keys_distinct(entries),
        0 <= i < entries.len(),
    ensures
        count_map(entries.update(i, (entries[i].0, v))) == count_map(entries).insert(entries[i].0@, v as nat),
        keys_distinct(entries.update(i, (entries[i].0, v))),
    decreases entries.len(),
{
    let upd = entries.update(i, (entries[i].0, v));
    assert forall|a: int, b: int| 0 <= a < b < upd.len() implies (#[trigger] upd[a]).0@ != (#[trigger] upd[b]).0@ by {
        assert(upd[a].0 == entries[a].0 && upd[b].0 == entries[b].0);
    }
    let init = entries.drop_last();
    if i == entries.len() - 1 {
        assert(upd.drop_last() =~= init);
        assert(count_map(entries).insert(entries[i].0@, v as nat) =~= count_map(init).insert(entries[i].0@, v as nat));
    } else {
        assert(keys_distinct(init)) by {
            assert forall|a: int, b: int| 0 <= a < b < init.len() implies (#[trigger] init[a]).0@ != (#[trigger] init[b]).0@ by {
                assert(init[a] == entries[a] && init[b] == entries[b]);
            }
        }
        lemma_count_map_update(init, i, v);
        assert(upd.drop_last() =~= init.update(i, (entries[i].0, v)));
        assert(upd.last() == entries.last());
        assert(entries[i].0@ != entries[entries.len() - 1].0@);
        assert(count_map(upd) =~= count_map(entries).insert(entries[i].0@, v as nat));
    }
}

/// Adding a key not yet listed keeps the keys distinct.
proof fn lemma_keys_push<K: View>(entries: Seq<(K, usize)>, e: (K, usize))
    requires
        keys_distinct(entries),
        forall|j: int| 0 <= j < entries.len() ==> (#[trigger] entries[j]).0@ != e.0@,
    ensures
        keys_distinct(entries.push(e)),
{
    let p = entries.push(e);
    assert forall|a: int, b: int| 0 <= a < b < p.len() implies (#[trigger] p[a]).0@ != (#[trigger] p[b]).0@ by {
        assert(p[a] == entries[a]);
        if b < entries.len() {
            assert(p[b] == entries[b]);
        }
    }
}

/// One more occurrence of `key`: its count goes up by one, or it is listed with count one.
pub fn increment_name_count(entries: &mut Vec<(String, usize)>, key: &String)
    requires
        keys_distinct(old(entries)@),
        count_of(count_map(old(entries)@), key@) < usize::MAX,
    ensures
        keys_distinct(final(entries)@),
        count_map(final(entries)@) == count_map(old(entries)@).insert(key@, count_of(count_map(old(entries)@), key@) + 1),
        final(entries)@.len() <= old(entries)@.len() + 1,
{
    let mut i: usize = 0;
    while i < entries.len()
        invariant
            i <= entries@.len(),
            entries@ == old(entries)@,
            keys_distinct(entries@),
            count_of(count_map(entries@), key@) < usize::MAX,
            forall|j: int| 0 <= j < i ==> (#[trigger] entries@[j]).0@ != key@,
        decreases entries.len() - i,
    {
        if entries[i].0 == *key {
            proof {
                lemma_count_map_lookup(entries@, key@);
            }
            let c = entries[i].1;
            let k = entries[i].0.clone();
            proof {
                lemma_count_map_update(entries@, i as int, (c + 1) as usize);
            }
            entries.set(i, (k, c + 1));
            return;
        }
        i += 1;
    }
    let k = key.clone();
    proof {
        lemma_count_map_lookup(entries@, key@);
        lemma_keys_push(entries@, (k, 1usize));
    }
    let ghost before = entries@;
    entries.push((k, 1));
    proof {
        assert(entries@.drop_last() =~= before);
    }
}

/// One more occurrence of the edge kind `key`.
pub fn increment_edge_count(entries: &mut Vec<(EdgeType, usize)>, key: EdgeType)
    requires
        keys_distinct(old(entries)@),
        count_of(count_map(old(entries)@), key) < usize::MAX,
    ensures
        keys_distinct(final(entries)@),
        count_map(final(entries)@) == count_map(old(entries)@).insert(key, count_of(count_map(old(entries)@), key) + 1),
        final(entries)@.len() <= old(entries)@.len() + 1,
{
    let mut i: usize = 0;
    while i < entries.len()
        invariant
            i <= entries@.len(),
            entries@ == old(entries)@,
            keys_distinct(entries@),
            count_of(count_map(entries@), key) < usize::MAX,
            forall|j: int| 0 <= j < i ==> (#[trigger] entries@[j]).0@ != key,
        decreases entries.len() - i,
    {
        if entries[i].0 == key {
            proof {
                lemma_count_map_lookup(entries@, key);
            }
            let c = entries[i].1;
            proof {
                lemma_count_map_update(entries@, i as int, (c + 1) as usize);
            }
            entries.set(i, (key, c + 1));
            return;
        }
        i += 1;
    }
    proof {
        lemma_count_map_lookup(entries@, key);
        lemma_keys_push(entries@, (key, 1usize));
    }
    let ghost before = entries@;
    entries.push((key, 1));
    proof {
        assert(entries@.drop_last() =~= before);
    }
}

/// A copy of a list of named counts.
fn copy_name_counts(entries: &Vec<(String, usize)>) -> (r: Vec<(String, usize)>)
    ensures
        r@.len() == entries@.len(),
        forall|i: int| 0 <= i < r@.len() ==> (#[trigger] r@[i]).0@ == entries@[i].0@ && r@[i].1 == entries@[i].1,
{
    let mut r: Vec<(String, usize)> = Vec::new();
    let mut i: usize = 0;
    while i < entries.len()
        invariant
            i <= entries@.len(),
            r@.len() == i,
            forall|j: int| 0 <= j < i ==> (#[trigger] r@[j]).0@ == entries@[j].0@ && r@[j].1 == entries@[j].1,
        decreases entries.len() - i,
    {
        r.push((entries[i].0.clone(), entries[i].1));
        i += 1;
    }
    r
}

/// Lists with the same keys (by view) and counts have the same map.
proof fn lemma_count_map_same<K: View>(a: Seq<(K, usize)>, b: Seq<(K, usize)>)
    requires
        a.len() == b.len(),
        forall|i: int| 0 <= i < a.len() ==> (#[trigger] a[i]).0@ == b[i].0@ && a[i].1 == b[i].1,
    ensures
        count_map(a) == count_map(b),
        keys_distinct(a) == keys_distinct(b),
    decreases a.len(),
{
    if a.len() > 0 {
        lemma_count_map_same(a.drop_last(), b.drop_last());
        assert(a.last().0@ == b.last().0@);
    }
    if keys_distinct(a) {
        assert forall|x: int, y: int| 0 <= x < y < b.len() implies (#[trigger] b[x]).0@ != (#[trigger] b[y]).0@ by {
            assert(a[x].0@ != a[y].0@);
        }
    }
    if keys_distinct(b) {
        assert forall|x: int, y: int| 0 <= x < y < a.len() implies (#[trigger] a[x]).0@ != (#[trigger] a[y]).0@ by {
            assert(b[x].0@ != b[y].0@);
        }
    }
}

impl CaseStats {
    /// A copy with the same counts.
    pub fn copy(&self) -> (r: CaseStats)
        ensures
            r.event_counts() == self.event_counts(),
            r.object_counts() == self.object_counts(),
            r.edge_counts() == self.edge_counts(),
            r.wf() == self.wf(),
            r.query_event_counts@.len() == self.query_event_counts@.len(),
            r.query_object_counts@.len() == self.query_object_counts@.len(),
            r.query_edge_counts@ == self.query_edge_counts@,
    {
        let events = copy_name_counts(&self.query_event_counts);
        let objects = copy_name_counts(&self.query_object_counts);
        let mut edges: Vec<(EdgeType, usize)> = Vec::new();
        let mut i: usize = 0;
        while i < self.query_edge_counts.len()
            invariant
                i <= self.query_edge_counts@.len(),
                edges@ == self.query_edge_counts@.take(i as int),
            decreases self.query_edge_counts.len() - i,
        {
            let e = self.query_edge_counts[i];
            edges.push(e);
            proof {
                assert(edges@ =~= self.query_edge_counts@.take(i + 1));
            }
            i += 1;
        }
        proof {
            assert(edges@ =~= self.query_edge_counts@);
            lemma_count_map_same(events@, self.query_event_counts@);
            lemma_count_map_same(objects@, self.query_object_counts@);
        }
        CaseStats { query_event_counts: events, query_object_counts: objects, query_edge_counts: edges }
    }
}

/// With distinct keys, the map of a list has one key per entry.
pub proof fn lemma_count_map_dom<K: View>(entries: Seq<(K, usize)>)
    requires
        keys_distinct(entries),
    ensures
        count_map(entries).dom().finite(),
        count_map(entries).dom().len() == entries.len(),
        forall|k: K::V| #[trigger] count_map(entries).dom().contains(k) <==> exists|i: int| 0 <= i < entries.len() && entries[i].0@ == k,
    decreases entries.len(),
{
    if entries.len() > 0 {
        let init = entries.drop_last();
        assert(keys_distinct(init)) by {
            assert forall|a: int, b: int| 0 <= a < b < init.len() implies (#[trigger] init[a]).0@ != (#[trigger] init[b]).0@ by {
                assert(init[a] == entries[a] && init[b] == entries[b]);
            }
        }
        lemma_count_map_dom(init);
        let last = entries.last();
        assert(!count_map(init).dom().contains(last.0@)) by {
            if count_map(init).dom().contains(last.0@) {
                let i = choose|i: int| 0 <= i < init.len() && init[i].0@ == last.0@;
                assert(entries[i].0@ != entries[entries.len() - 1].0@);
            }
        }
        assert forall|k: K::V| #[trigger] count_map(entries).dom().contains(k) <==> exists|i: int|
            0 <= i < entries.len() && entries[i].0@ == k by {
            if count_map(entries).dom().contains(k) && k != last.0@ {
                let i = choose|i: int| 0 <= i < init.len() && init[i].0@ == k;
                assert(entries[i] == init[i]);
            }
            if exists|i: int| 0 <= i < entries.len() && entries[i].0@ == k {
                let i = choose|i: int| 0 <= i < entries.len() && entries[i].0@ == k;
                if i < init.len() {
                    assert(init[i] == entries[i]);
                }
            }
        }
    } else {
        assert(count_map(entries).dom() =~= Set::<K::V>::empty());
    }
}

} // verus!
