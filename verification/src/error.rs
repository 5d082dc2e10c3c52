//! The errors a circuit grid can be rejected with.

use vstd::prelude::*;

verus! {

/// Why a circuit grid was rejected.
#[derive(Debug, Clone, Copy, PartialEq, Eq, Structural)]
pub enum QuantumCircuitError {
    /// The grid has more than six rows.
    TooManyQubits,
    /// The grid has no row.
    TooFewQubits,
    /// A cell holds a token outside the vocabulary, or a multi-row gate lacks its partner.
    InvalidGate,
    /// A row is not as long as the first row.
    InvalidRowLength,
}

} // verus!
