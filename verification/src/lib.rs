//! Arithmetization and folding core of a zero-knowledge proof stack.
//!
//! The crate represents circuit constraints as multivariate polynomials over a
//! prime field, compiles constraint expressions into that representation,
//! computes the cross-terms needed to fold two proof instances into one, and
//! runs the accumulate-and-prove protocol over per-column witness evaluations.
//!
//! The commitment scheme, the Fiat-Shamir sponge and the evaluation domain are
//! external collaborators: the protocol layer is generic over the
//! [`protocol::ProofSystem`] trait that states their interface.

pub mod column;
pub mod cross_terms;
pub mod error;
pub mod expr;
pub mod field;
pub mod instruction;
pub mod mvpoly;
pub mod protocol;
pub mod witness;
