# process_mining

Object-centric Petri nets, their markings and the building blocks of a search for a
run of a net that conforms to a given case, verified with Verus.

## Layout

- `src/petri_net.rs`: places typed by object type, transitions, input and output arcs.
- `src/marking.rs`: markings (tokens per place, kept in `hashbag` bags), the bindings
  with which a transition can fire, firing, finality; the power set and power multiset
  of a bag.
- `src/bag.rs`: the trusted declarations of the `hashbag` calls that markings make.
- `src/combinatorics.rs`: cartesian products of pools of items.
- `src/walks.rs`, `src/min_events.rs`: the transitions that every acyclic walk of an
  object type passes, as a lower bound on the events a conforming run needs.
- `src/case_stats.rs`: counts of events, objects and edges of a case, and the cost
  lower bound that a partial case already incurs against a query case.
- `src/case_graph.rs`: the partial case a search builds: event and object nodes, and
  the edges between them.
- `src/search.rs`: the steps of the search: the nodes and what each step did, and
  `generate_children`, which gives the children of a node (token children, then one
  child per transition and binding), with the laws on them (`lemma_child_is_step`,
  `lemma_children_min_cost`, `lemma_no_token_after_firing`, `lemma_children_stats_match`).
- `src/type_storage.rs`: interning of type names.
- `app/lib.rs`: what is process-wide, prints or leaves the verified part: the shared
  type registry, the log line of a search step, the Graphviz form of a case graph, and
  the branch-and-bound loop of the search. That loop compares floating-point alignment
  costs from a mixed-integer solver that this project does not include, so the cost, the
  counts of tokens per object type and the dead-place check come in as functions.

Token ids are unique per marking: each marking numbers its new tokens with its own
counter, which its copies carry on, so the tokens of one search branch never share an
id; two markings made independently both start at 0. (A counter shared by the whole
process would be a `static`, which the verified part does not have.)

Not here: the command-line worker and controller that read logs and write results, and
the alignment solver.

Each public function states its result in its `ensures`; the laws that relate several
functions are public proof functions next to them (`lemma_bindings_enabled`,
`lemma_bindings_complete`, `lemma_bindings_take_available`, `lemma_products_agree`,
`lemma_min_cost_zero`, `lemma_interning_idempotent`, `lemma_interning_keeps_ids`, ...).
