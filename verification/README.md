# thesy

Induction proving over e-graphs: a prover that checks equations between
terms of an algebraic datatype by rewriting in an [egg] e-graph, first for the
base constructors and then for the recursive ones; and the appliers that its
rules use. The prover describes the induction hypothesis and the well-founded
order as rules by value (`create_hypothesis`, `wfo_datatype`); they search
several patterns at once or keep their results apart, so they are not handed
to egg's runner, which runs only the rewrites between patterns given by the
caller.

- `src/` is the verified library (Verus):
  - `expr`, `pattern`: terms and patterns as node lists, and the translation
    of a term into a pattern (`pattern_of`).
  - `lang`: datatypes, function symbols and placeholder constants.
  - `rules`, `wfo`: rewrite rules described by value, the well-founded order
    rules of a datatype.
  - `prover`: `Prover` and its proof procedures.
  - `appliers`: the appliers that merge or keep apart what they add.
  - `egraph`, `permute`: the calls into egg and permutohedron, with their
    contracts.
  - `generalize`, `laws`: lemmas and the properties proved of the library.
- `app/` implements egg's `Applier` trait for the appliers and turns rule
  descriptions whose searcher and applier are single patterns into egg
  rewrites.
- `tests/` runs the library against egg.

[egg]: https://crates.io/crates/egg
