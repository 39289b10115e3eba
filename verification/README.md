# rsdd

A library of reduced ordered binary decision diagrams (BDDs), written in
Verus: every function of the library carries a contract, and Verus proves
each body against it, except two small trusted wrappers around `itertools`
(`sorted_values` and `polarity_product` in `src/extras.rs`), whose
contracts restate what that crate documents.

## Layout

- `src/repr.rs`: variable labels, table indices, BDD pointers (with
  complement edges and a packed `u64` form), nodes.
- `src/builder.rs`: `RobddBuilder`, the hash-consed node table with a cache
  of if-then-else results, the semantics of a pointer (`eval`), its
  support, and the operations `ite`, `and`, `or`, `iff`, `negate`,
  `condition`, `quantify_exists`, `compose`.
  Its central law, `lemma_equal_iff_equivalent`, states that two valid
  pointers are equal exactly when they denote the same Boolean function.
- `src/extras.rs`: the variables of a diagram, node counting, evaluation
  under a partial assignment, and the enumeration of all models.
- `src/count.rs`: model counting over all variables of a builder, each
  node counted once, in the integers modulo the largest prime below 2^64.
- `src/util/graphviz.rs`: a small manager whose node lists feed a
  depth-first edge traversal for drawing.
- `src/sdd_manager.rs`: variable trees (vtrees) for sentential decision
  diagrams: balanced vtrees, their parent/depth tables, least common
  ancestors.
- `tests/`: tests run against the compiled library.
- `app/`: the C interface (raw pointers and `extern "C"` functions) and
  the floating-point probability type, which stay outside the verified
  library.

## What is not here

- The manager of sentential decision diagrams (`SddManager`: `new`, `var`,
  `apply` and its `compress`/`negate` helpers, `print_sdd`, `eval_sdd`,
  `sdd_eq`) and the operation table it uses (`eval_op`) are not part of
  this library. They rest on an SDD node table, an SDD pointer encoding, a
  table of external references and an apply cache that this code base does
  not contain; only the vtree utilities in `src/sdd_manager.rs` are here.
- There is no JSON export of diagrams (`bdd_to_json`), no CNF input
  (`cnf_from_dimacs`, `robdd_builder_compile_cnf`), no textual printing of
  diagrams (`print_bdd`), no per-node scratch storage, no recursion
  statistics and no weighted model counting (which is in floating point);
  the serializer, CNF type, printer and weight types they need are not in
  this code base either.

## Checking

Verus verifies `src/`; the tests in `tests/` run with the outside crates
linked (`itertools` for sorting and for the product of value vectors).
