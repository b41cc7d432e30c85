//! Typed failures surfaced by the core.
//!
//! None of these is retried internally: the computation is deterministic, so
//! the same input yields the same failure.

use vstd::prelude::*;

verus! {

/// The kind of expression node that is not meaningful at the compilation
/// boundary, reported by [`Error::UnsupportedConstruct`].
#[derive(Clone, Copy, Debug, PartialEq, Eq, Structural)]
pub enum NodeKind {
    /// A symbolic challenge atom.
    Challenge,
    /// The endomorphism-coefficient constant atom.
    EndoCoefficient,
    /// An MDS-matrix entry constant atom.
    Mds,
    /// A cached sub-expression node.
    Cache,
    /// A conditional-feature node.
    IfFeature,
    /// An unnormalized Lagrange basis atom.
    UnnormalizedLagrangeBasis,
    /// The vanishing-polynomial atom.
    VanishesOnZeroKnowledgeAndPreviousRows,
}

/// The error taxonomy of the core.
#[derive(Clone, Copy, Debug, PartialEq, Eq, Structural)]
pub enum Error {
    /// A fixed-selector column was converted into a polynomial variable index.
    UnsupportedColumn,
    /// An expression referenced a row other than the current one.
    UnsupportedRowReference,
    /// An expression contained a node kind that never legitimately appears at
    /// the compilation boundary; the payload names the offending kind.
    UnsupportedConstruct(NodeKind),
}

} // verus!
