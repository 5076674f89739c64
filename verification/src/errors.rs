//! Error types: proof-format errors returned by FRI proof parsing, errors
//! raised by the verification procedure, and prover-side degree-validation
//! errors.

use vstd::prelude::*;

verus! {

/// A malformed FRI proof detected during parsing.
#[derive(Debug)]
pub enum ProofSerializationError {
    /// A layer's value bytes could not be decomposed into whole queries, or
    /// its Merkle path bytes could not be decoded. Holds the layer depth
    /// and a description.
    LayerDeserializationError(usize, String),
    /// After folding through all layers the residual domain size does not
    /// match the remainder length. Holds the actual and the expected
    /// number of remainder elements.
    InvalidRemainderDomain(usize, usize),
    /// The remainder bytes do not decode into field elements.
    RemainderDeserializationError(String),
}

/// A failed verification step.
#[derive(Debug)]
pub enum VerifierError {
    /// The constraint evaluations at the out-of-domain point do not match
    /// the composition polynomial columns sent by the prover.
    InconsistentOodConstraintEvaluations,
    /// The low-degree test rejected the composition evaluations. Holds a
    /// description of the inner failure.
    FriVerificationFailed(String),
}

/// A prover-side contract failure.
#[derive(Debug)]
pub enum ProverError {
    /// A column's post-division degree differs from the expected degree.
    /// Holds the expected and the actual degree.
    MismatchedConstraintPolynomialDegree(usize, usize),
}

} // verus!
