//! Join-semilattices and conflict-free replicated data types, with the
//! algebraic laws that make replicas converge proved by Verus.

pub mod element;
pub mod collections;
pub mod semilattice;
pub mod crdt_state;
pub mod update;
pub mod convergence;
pub mod calm;
pub mod kleene;
pub mod scott;
pub mod anti_entropy;
pub mod compose;
pub mod delta;
pub mod crdt_op;
pub mod cudaclaw;
