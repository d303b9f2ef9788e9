# lau_calm_crdt

Join-semilattices and conflict-free replicated data types (CRDTs), with the
algebraic laws that make replicas converge stated and proved with Verus.

Every state type models its value by a view (`@`). `BoundedJoinSemilattice`
gives join and bottom on views (`join_model`, `bottom_model`), and each
implementation proves commutativity, associativity, idempotence and the
identity law on the views for which they hold (`valid`, `compatible`).

## Layout

- `src/semilattice.rs`: the trait, `NatMax`, `BoolOr`, `Product`,
  `VectorMax`, `MapSemilattice`, the order laws.
- `src/crdt_state.rs`: G-Counter, PN-Counter, G-Set, OR-Set, LWW register,
  LWW element set.
- `src/crdt_op.rs`: operation-based CRDTs and the commutation laws of their
  operations.
- `src/delta.rs`: delta-state CRDTs.
- `src/compose.rs`: product, coproduct, function space and sequence CRDTs.
- `src/convergence.rs`: the join of a family does not depend on merge order.
- `src/anti_entropy.rs`: Merkle diffs, replicas, gossip and its convergence.
- `src/calm.rs`, `src/kleene.rs`, `src/scott.rs`: monotonicity checks,
  Kleene fixpoints, Scott continuity.
- `src/cudaclaw.rs`: the SmartCRDT agent state and `verify_crdt`.
- `src/element.rs`, `src/collections.rs`, `src/update.rs`: values stored in
  collections, vector-backed sets and maps, update closures.

The only trusted items are two calls into std that draw the random id of a
new OR-Set replica (`RandomState::new`, `BuildHasher::hash_one` in
`crdt_state.rs`); nothing is promised of their results.
