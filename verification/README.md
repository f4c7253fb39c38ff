# propaga-propagators

Constraint propagators for a finite-domain solver, written in Verus. Each propagator
narrows the domains of its variables in a `DomainStore` (integer domains) or a
`SetStore` (set domains) and reports whether it changed them or found the constraint
unsatisfiable. Their contracts say what each one removes, when it fails, and, for most
of them, that no solution of the constraint is lost.

## Layout

- `src/domain.rs`, `src/set_domain.rs`: integer and set domains and their stores, with
  views as mathematical sets.
- `src/solutions.rs`: assignments, and what it means for a narrowing to keep the
  solutions of a constraint.
- `src/scheduling.rs`, `src/disjunctive.rs`, `src/cumulative.rs`, `src/diffn.rs`:
  scheduling and packing constraints (time tables, overload checks, edge finding,
  detectable precedences).
- `src/matching.rs`, `src/all_different.rs`, `src/circuit.rs`, `src/gcc.rs`,
  `src/inverse.rs`: matching-based constraints.
- The remaining files: arithmetic, linear, reified, element, regular, clause, nogood and
  set constraints.
- `tests/`: tests that run the propagators on concrete stores, with a small fixpoint
  engine.

## Not included

The floating-point propagators (float unary, binary and product constraints, and the
channel between integer and float domains) are not part of this crate: Verus does not
reason about floating point.
