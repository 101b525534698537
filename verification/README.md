# vertex_cover

A verified branch-and-reduce solver for minimum vertex cover, written in
Verus.

The library (`src/`) holds the graph, the search state, the reduction
rules, the lower bounds, the branching step, the solver loop and the
parser of the input format. Each function carries a contract that Verus
proves; the laws that tie the parts together stand as public proof
functions (their names begin with `law_`).

Layout:

- `src/graph.rs`: simple graphs on the ids `0..n`, their views and laws.
- `src/idset.rs`: sets of ids (a hash set with the fnv hasher, behind
  trusted wrappers whose contracts speak of the set's contents).
- `src/state.rs`: the search state: solution, upper bound, packing
  constraints and dirty sets.
- `src/ideas/`: the reduction rules and lower bounds, one file each, and
  the enumeration that the solver schedules.
- `src/branch.rs`: branching on a vertex of maximum degree (its mirrors,
  or its neighbours).
- `src/solve.rs`: reduce, branch, split into components, undo the folds.
- `src/sound.rs`: that every answer is a vertex cover of the input.
- `src/parse.rs`: the edge-list input format.
- `app/main.rs`: reads standard input and prints the cover.
- `tests/`: tests on concrete graphs.
