# dagq

Queries over a revision graph, verified with Verus.

- `src/dag.rs`, `src/sets.rs`, `src/logical.rs`: the graph (`Dag`, built by
  `DagBuilder`), sorted vertex batches, and the evaluator of logical queries
  (`Expr`), whose result is stated by `eval_seq`; `src/built.rs`: what one
  step and a filter find on a graph that a builder made, across later
  builder calls, and that graphs built with `m` have no cycle.
- `src/optimize.rs`, `src/optimize/ends.rs`, `src/tree.rs`: the rewriting
  planner for those queries (`Planner`, `RewriteRules`), the laws that its
  folds and splices keep what a query evaluates to, the proof that it
  finishes, and the tree printer; `src/optimize/denote.rs`: what a query
  denotes (with `All` every vertex), that the rewrite keeps it under every
  rule set, and that the evaluator gives it within the graph.
- `src/physical.rs` and `src/physical/`: streaming operators over ordered
  items (constants, index scans, set operations, merge joins, closures along
  edges, `x::y` ranges), each stated as the sequence it hands out, with laws
  for what the set operations, joins, closures and ranges compute.
- `src/lang.rs`, `src/lang/round_trip.rs`, `src/render.rs`: a small revset
  language (parser and printer, with the law that printed text parses back)
  and its evaluation with the physical operators.
- `src/planner.rs` and `src/planner/`: query plans with predicate filters,
  their rewriting and printing (`src/planner/fuel.rs`: the rewrite does not
  depend on its step allowance, nested walks fold into one, and which plans
  it accepts), and their construction from parsed jj revsets (`lower_jj_revset`, over `RevsetTree`).
- `app/`: parsing revsets with `jj-lib` and handing the parsed expression to
  the library, part for part, as a `RevsetTree`; error values with
  `Display`.
- `tests/`: the test suite.
