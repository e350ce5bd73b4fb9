//! The accounts that each instruction works on, with their constraints.
use vstd::prelude::*;

use crate::hashing::bytes32_eq;
use crate::program::errors::ConstraintError;
use crate::program::state::{ConflictRecord, CpeBundle, CpeState, EpochTracker, Pubkey};

verus! {

/// The state's authority must be the signer.
pub open spec fn has_one_authority(state: CpeState, authority: Pubkey) -> bool {
    state.authority == authority
}

/// Accounts of `initialize_cpe_state`: a fresh state, the authority's epoch
/// tracker (created if needed) and the signing authority.
#[derive(Debug, Clone, Copy, Default, PartialEq, Eq)]
pub struct InitializeCpeState {
    pub cpe_state: CpeState,
    pub epoch_tracker: EpochTracker,
    pub authority: Pubkey,
}

/// Accounts of `submit_cpe_bundle`: the state (with its address), a fresh
/// bundle account and the signing authority.
#[derive(Debug, Clone, Copy, Default, PartialEq, Eq)]
pub struct SubmitCpeBundle {
    pub cpe_state: CpeState,
    pub cpe_state_key: Pubkey,
    pub cpe_bundle: CpeBundle,
    pub authority: Pubkey,
}

/// Accounts of `validate_parallel_execution`.
#[derive(Debug, Clone, Copy, Default, PartialEq, Eq)]
pub struct ValidateParallelExecution {
    pub cpe_state: CpeState,
    pub cpe_state_key: Pubkey,
    pub authority: Pubkey,
}

/// Accounts of `finalize_epoch`.
#[derive(Debug, Clone, Copy, Default, PartialEq, Eq)]
pub struct FinalizeEpoch {
    pub cpe_state: CpeState,
    pub epoch_tracker: EpochTracker,
    pub authority: Pubkey,
}

/// Accounts of `resolve_conflict`: the state (with its address), a fresh
/// conflict record and the signing authority.
#[derive(Debug, Clone, Copy, Default, PartialEq, Eq)]
pub struct ResolveConflict {
    pub cpe_state: CpeState,
    pub cpe_state_key: Pubkey,
    pub conflict_record: ConflictRecord,
    pub authority: Pubkey,
}

/// Accounts of `burn_mono_fee`.
#[derive(Debug, Clone, Copy, Default, PartialEq, Eq)]
pub struct BurnMonoFee {
    pub cpe_state: CpeState,
    pub cpe_state_key: Pubkey,
    pub epoch_tracker: EpochTracker,
    pub authority: Pubkey,
}

/// Checks that `state` belongs to `authority`.
fn check_has_one(state: &CpeState, authority: &Pubkey) -> (r: Result<(), ConstraintError>)
    ensures
        r == if has_one_authority(*state, *authority) {
            Ok::<(), ConstraintError>(())
        } else {
            Err(ConstraintError::HasOne)
        },
{
    if bytes32_eq(&state.authority, authority) {
        Ok(())
    } else {
        Err(ConstraintError::HasOne)
    }
}

impl SubmitCpeBundle {
    /// The state must belong to the signer and must not be finalized.
    pub open spec fn constraints_hold(&self) -> Result<(), ConstraintError> {
        if !has_one_authority(self.cpe_state, self.authority) {
            Err(ConstraintError::HasOne)
        } else if self.cpe_state.is_finalized {
            Err(ConstraintError::Raw)
        } else {
            Ok(())
        }
    }

    pub fn check_constraints(&self) -> (r: Result<(), ConstraintError>)
        ensures
            r == self.constraints_hold(),
    {
        check_has_one(&self.cpe_state, &self.authority)?;
        if self.cpe_state.is_finalized {
            return Err(ConstraintError::Raw);
        }
        Ok(())
    }
}

impl ValidateParallelExecution {
    pub open spec fn constraints_hold(&self) -> Result<(), ConstraintError> {
        if has_one_authority(self.cpe_state, self.authority) {
            Ok(())
        } else {
            Err(ConstraintError::HasOne)
        }
    }

    pub fn check_constraints(&self) -> (r: Result<(), ConstraintError>)
        ensures
            r == self.constraints_hold(),
    {
        check_has_one(&self.cpe_state, &self.authority)
    }
}

impl FinalizeEpoch {
    pub open spec fn constraints_hold(&self) -> Result<(), ConstraintError> {
        if has_one_authority(self.cpe_state, self.authority) {
            Ok(())
        } else {
            Err(ConstraintError::HasOne)
        }
    }

    pub fn check_constraints(&self) -> (r: Result<(), ConstraintError>)
        ensures
            r == self.constraints_hold(),
    {
        check_has_one(&self.cpe_state, &self.authority)
    }
}

impl ResolveConflict {
    pub open spec fn constraints_hold(&self) -> Result<(), ConstraintError> {
        if has_one_authority(self.cpe_state, self.authority) {
            Ok(())
        } else {
            Err(ConstraintError::HasOne)
        }
    }

    pub fn check_constraints(&self) -> (r: Result<(), ConstraintError>)
        ensures
            r == self.constraints_hold(),
    {
        check_has_one(&self.cpe_state, &self.authority)
    }
}

impl BurnMonoFee {
    pub open spec fn constraints_hold(&self) -> Result<(), ConstraintError> {
        if has_one_authority(self.cpe_state, self.authority) {
            Ok(())
        } else {
            Err(ConstraintError::HasOne)
        }
    }

    pub fn check_constraints(&self) -> (r: Result<(), ConstraintError>)
        ensures
            r == self.constraints_hold(),
    {
        check_has_one(&self.cpe_state, &self.authority)
    }
}

/// An instruction's accounts pass exactly when the state belongs to the
/// signer, and for a submission also is not finalized; a stranger is
/// refused with `HasOne` before anything else, a finalized state with
/// `Raw`.
pub proof fn lemma_constraints(
    submit: SubmitCpeBundle,
    validate: ValidateParallelExecution,
    finalize: FinalizeEpoch,
    resolve: ResolveConflict,
    burn: BurnMonoFee,
)
    ensures
        submit.cpe_state.authority != submit.authority ==> submit.constraints_hold() == Err::<(), ConstraintError>(ConstraintError::HasOne),
        submit.cpe_state.authority == submit.authority && submit.cpe_state.is_finalized ==> submit.constraints_hold() == Err::<(), ConstraintError>(ConstraintError::Raw),
        submit.constraints_hold() is Ok <==> (submit.cpe_state.authority == submit.authority && !submit.cpe_state.is_finalized),
        validate.constraints_hold() is Ok <==> validate.cpe_state.authority == validate.authority,
        validate.constraints_hold() is Err ==> validate.constraints_hold() == Err::<(), ConstraintError>(ConstraintError::HasOne),
        finalize.constraints_hold() is Ok <==> finalize.cpe_state.authority == finalize.authority,
        finalize.constraints_hold() is Err ==> finalize.constraints_hold() == Err::<(), ConstraintError>(ConstraintError::HasOne),
        resolve.constraints_hold() is Ok <==> resolve.cpe_state.authority == resolve.authority,
        resolve.constraints_hold() is Err ==> resolve.constraints_hold() == Err::<(), ConstraintError>(ConstraintError::HasOne),
        burn.constraints_hold() is Ok <==> burn.cpe_state.authority == burn.authority,
        burn.constraints_hold() is Err ==> burn.constraints_hold() == Err::<(), ConstraintError>(ConstraintError::HasOne),
{
}

} // verus!
