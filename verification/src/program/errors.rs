//! Errors of the bundle program.
use vstd::prelude::*;

verus! {

/// The errors that the instruction handlers return.
#[derive(Debug, Clone, Copy, PartialEq, Eq)]
pub enum MonoGirlError {
    BundleDepthExceeded,
    EpochAlreadyFinalized,
    InvalidMerkleRoot,
    EmptyTransactionSet,
    ConflictAlreadyResolved,
    InvalidResolution,
    BundleDataTooLarge,
    InsufficientTransactions,
    EpochMismatch,
    ValidationFailed,
    AccountSetConflict,
    InsufficientMonoBurned,
}

/// A violated account constraint of an instruction context.
#[derive(Debug, Clone, Copy, PartialEq, Eq)]
pub enum ConstraintError {
    /// The state's authority is not the signing authority.
    HasOne,
    /// A constraint expression over the accounts does not hold.
    Raw,
}

/// Why an instruction was refused: its accounts broke a constraint, or its
/// handler returned an error.
#[derive(Debug, Clone, Copy, PartialEq, Eq)]
pub enum InstructionError {
    Constraint(ConstraintError),
    Program(MonoGirlError),
}

/// A handler's result, its error taken as the instruction's error.
pub open spec fn program_result<T>(r: Result<T, MonoGirlError>) -> Result<T, InstructionError> {
    match r {
        Ok(v) => Ok(v),
        Err(e) => Err(InstructionError::Program(e)),
    }
}

} // verus!
