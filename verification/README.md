# stitch

Incremental construction of abstraction patterns over a small
lambda-calculus language, verified with Verus.

A pattern is a term with pattern variables `?#k`, stored as a vector of
nodes with parents before children. It starts as `?#0` and grows by
three operations: `expand` replaces a variable by an operator over fresh
variables, `reuse` unifies two variables, and `concretize` replaces a
variable by a concrete subterm, shifting free de Bruijn indices where the
variable's positions sit under different numbers of binders.

## Layout

- `src/lang.rs`: operators and nodes, with their mathematical views.
- `src/tree.rs`: the term a node denotes, and the shift of free de Bruijn
  indices.
- `src/pattern.rs`: the `Pattern` type, its well-formedness, the specs of
  the three operations and their implementations.
- `src/laws.rs`, `src/depths.rs`, `src/canon.rs`: what the operations keep:
  exact occurrence counts, variable depths, and first-appearance naming,
  from which alpha-equivalent patterns are equal.
- `src/shift.rs`: the capture-aware shifted copy of an extraction.
- `src/compare.rs`, `src/key.rs`: equality by term, and the sequence of
  ops a hash reads.
- `src/render.rs`, `src/ho.rs`, `src/util.rs`: s-expression rendering,
  higher-order argument wrapping, program listing, and reading a
  programs file through serde_json.
- `src/revexpr.rs`, `src/search.rs`, `src/smc.rs`: node-vector order
  conversion, search state, and the size analysis decisions.
- `src/fxmap.rs`: the hash-map calls, behind trusted wrappers.
- `app/main.rs`: the e-graph, file loading and the Monte Carlo search
  loop, which stay outside the verified library.
