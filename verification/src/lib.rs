//! Conditional parallel execution: dependency-graph scheduling, Merkle
//! commitments and the state machine of the on-chain bundle program.
pub mod bundle;
pub mod hashing;
pub mod math;
pub mod program;
