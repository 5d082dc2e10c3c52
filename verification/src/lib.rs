//! A simulator for small quantum circuits given as grids of gate tokens.
//!
//! A grid has one row per qubit and one column per time step. [`simulate`]
//! checks the grid, reads every column as a step of gate operations, and
//! follows a register of qubits through the steps. The register keeps its
//! qubits in clusters and merges two clusters when a gate acts on both.
//!
//! What `simulate` returns is a plan: for every step, which clusters merge,
//! which amplitudes every gate combines, and how the qubits are clustered
//! once the step is done. The products and sums on the amplitudes themselves
//! are left to the caller, who is free in the choice of numbers. The modules
//! [`exact`], [`unitary`] and [`evolution`] say what the plan means for
//! amplitudes held exactly, and prove that it keeps the amplitude vector of
//! every cluster at length one.

pub mod basis;
pub mod circuit_parser;
pub mod circuit_validator;
pub mod error;
pub mod evolution;
pub mod exact;
pub mod gate;
pub mod partition;
pub mod ping;
pub mod quantum_state;
pub mod simulator;
pub mod sums;
pub mod unitary;

pub use circuit_parser::{Operation, UnparsedCircuit};
pub use circuit_validator::{validate_col, validate_gate, validate_grid_input};
pub use error::QuantumCircuitError;
pub use gate::{Entry, Gate};
pub use quantum_state::{Action, ClusterLayout};
pub use simulator::{simulate, StepPlan};
