//! Extension-field arithmetic gadgets for a circuit builder over the
//! Goldilocks prime field.
//!
//! The crate has two halves.  The first is a value-level ("host") algebra:
//! the base prime field and its degree-D extensions `F[x]/(x^D - W)`,
//! used to compute constants and witness values.  The second is a gadget
//! layer that expresses the same arithmetic as constraint-system gates:
//! a `CircuitBuilder` accumulates gate instances, copy constraints and
//! deferred witness generators, and every gadget's contract states what
//! any satisfying wire assignment must make of the returned targets.

pub mod field;
pub mod extension;
pub mod target;
pub mod builder;
pub mod gadgets;
pub mod witness;
