# lumindd

A binary decision diagram (BDD) manager and the surrounding pieces of a
decision-diagram package, written in Verus: every function in `src/`
carries a contract that Verus proves. The manager has no variable
reordering, garbage collection or ADD/ZDD operations; the variable-group
tree, interaction matrix, linear-transform matrix and queues that
reordering uses stand on their own.

## Layout

- `src/` — the verified library:
  - `node.rs` — node handles with a complement bit in the lowest bit.
  - `apa.rs`, `apa_order.rs`, `decimal.rs` — arbitrary-precision unsigned
    integers (base 2^32 digits) and decimal rendering.
  - `computed_table.rs`, `local_cache.rs` — operation caches.
  - `mtr.rs` — the variable-group tree used by group sifting.
  - `interact.rs`, `interact_build.rs`, `reorder_linear.rs`,
    `level_queue.rs`, `reorder.rs` — interaction matrix and how it is built
    from the live nodes (direct interactions and their transitive closure),
    linear-transform matrix, per-level queues, reordering methods and
    variable groups.
  - `perm_check.rs`, `dd_verify.rs` — the checks that a variable order
    and its inverse agree, and that a diagram in a node arena stays inside
    the arena and respects the variable order.
  - `rng.rs`, `genetic.rs` — the xorshift generator and the permutation
    operators of genetic reordering (random permutations, partially mapped
    crossover, mutation).
  - `dump_order.rs` — the depth-first listing of a diagram's nodes from a
    node arena, children before parents, that a dump is written from.
  - `count_apa.rs` — exact minterm counting of a BDD over a node arena and
    its variable order, with arbitrary-precision integers.
  - `scan.rs`, `varint.rs`, `dddmp.rs`, `dump_law.rs`, `binary_law.rs`,
    `harwell.rs`, `export.rs` — text scanning and number parsing, LEB128 varints, the DDDMP
    text, binary and CNF formats (with their read-back laws), the integer side
    of Harwell-Boeing matrices, and export node names.
  - `canon.rs` — why the manager's handles are canonical: with reduced,
    ordered nodes and a unique table that holds every node, equal
    functions give equal handles.
  - `manager.rs` — the BDD manager: a node arena of reduced, ordered nodes
    with complemented edges, the variable order, the unique table, and the
    operations on it (if-then-else, the Boolean connectives, evaluation,
    implication, cofactors, existential quantification, squeezing between
    bounds, the generalized cofactor, cubes, picking a minterm, conjunctive
    and disjunctive decomposition, saving a diagram as a DDDMP node listing
    and rebuilding one from a dump). Each result is stated by the function
    its node computes: for squeezing, quantification, the generalized
    cofactor and picking a minterm, exactly the function built; for the
    decompositions, that the parts combine to `f`, with `(f, one)` for a
    diagram on at most one variable. Handles are canonical: two nodes with
    the same function are the same handle (`canon.rs` holds the proof).
  - `hooks.rs`, `error.rs`, `add.rs`, `bdd_clause.rs` — hook registry, error
    type, ADD operator tags, clause literals.
- `app/` — what the verified library does not hold: `f64` values
  (extended-precision doubles, matrix values, configuration records), reading
  and writing through `std::io`, and copies of library types carrying
  `Display`, `std::error::Error` and `bitflags`.
- `tests/` — tests run against the compiled library.
