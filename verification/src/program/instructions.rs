//! The program's instructions: the account constraints of each context are
//! checked first, then its handler runs.
use vstd::prelude::*;

use crate::program::contexts::{
    BurnMonoFee, FinalizeEpoch, InitializeCpeState, ResolveConflict, SubmitCpeBundle,
    ValidateParallelExecution,
};
use crate::program::errors::{program_result, InstructionError, MonoGirlError};
use crate::program::events::{
    ConflictResolved, CpeBundleSubmitted, CpeStateInitialized, EpochFinalized, MonoFeeBurned,
    ParallelExecutionValidated,
};
use crate::program::processor::{
    burn_outcome, burn_overflows, finalize_outcome, finalize_overflows, handle_burn_mono_fee,
    handle_finalize_epoch, handle_initialize_cpe_state, handle_resolve_conflict,
    handle_submit_cpe_bundle, handle_validate_parallel_execution, initialize_outcome,
    resolve_outcome, resolve_overflows, submit_outcome, submit_overflows, validate_outcome,
    validate_overflows,
};
use crate::program::state::Clock;

verus! {

fn program_error<T>(r: Result<T, MonoGirlError>) -> (out: Result<T, InstructionError>)
    ensures
        out == program_result(r),
{
    match r {
        Ok(v) => Ok(v),
        Err(e) => Err(InstructionError::Program(e)),
    }
}

/// Creates the state of an epoch for the signing authority.
pub fn initialize_cpe_state(ctx: &mut InitializeCpeState, clock: &Clock, max_depth: u8, epoch: u64) -> (r:
    Result<CpeStateInitialized, InstructionError>)
    ensures
        *final(ctx) == initialize_outcome(*old(ctx), *clock, max_depth, epoch).0,
        r == program_result(initialize_outcome(*old(ctx), *clock, max_depth, epoch).1),
{
    program_error(handle_initialize_cpe_state(ctx, clock, max_depth, epoch))
}

/// What `submit_cpe_bundle` does to its accounts and returns.
pub open spec fn submit_instruction(
    ctx: SubmitCpeBundle,
    clock: Clock,
    bundle_data: Seq<u8>,
    merkle_root: [u8; 32],
) -> (SubmitCpeBundle, Result<CpeBundleSubmitted, InstructionError>) {
    match ctx.constraints_hold() {
        Err(e) => (ctx, Err(InstructionError::Constraint(e))),
        Ok(_) => {
            let (next, r) = submit_outcome(ctx, clock, bundle_data, merkle_root);
            (next, program_result(r))
        },
    }
}

/// Submits a bundle to a state that belongs to the signer and is not
/// finalized.
pub fn submit_cpe_bundle(
    ctx: &mut SubmitCpeBundle,
    clock: &Clock,
    bundle_data: &Vec<u8>,
    merkle_root: [u8; 32],
) -> (r: Result<CpeBundleSubmitted, InstructionError>)
    requires
        old(ctx).constraints_hold() is Ok ==> !submit_overflows(
            *old(ctx),
            bundle_data@.len(),
            merkle_root,
        ),
    ensures
        (*final(ctx), r) == submit_instruction(*old(ctx), *clock, bundle_data@, merkle_root),
{
    match ctx.check_constraints() {
        Err(e) => Err(InstructionError::Constraint(e)),
        Ok(_) => program_error(handle_submit_cpe_bundle(ctx, clock, bundle_data, merkle_root)),
    }
}

/// What `validate_parallel_execution` does to its accounts and returns.
pub open spec fn validate_instruction(
    ctx: ValidateParallelExecution,
    clock: Clock,
    transaction_hashes: Seq<[u8; 32]>,
) -> (ValidateParallelExecution, Result<ParallelExecutionValidated, InstructionError>) {
    match ctx.constraints_hold() {
        Err(e) => (ctx, Err(InstructionError::Constraint(e))),
        Ok(_) => {
            let (next, r) = validate_outcome(ctx, clock, transaction_hashes);
            (next, program_result(r))
        },
    }
}

/// Validates a set of transaction hashes against a state of the signer.
pub fn validate_parallel_execution(
    ctx: &mut ValidateParallelExecution,
    clock: &Clock,
    transaction_hashes: &Vec<[u8; 32]>,
) -> (r: Result<ParallelExecutionValidated, InstructionError>)
    requires
        old(ctx).constraints_hold() is Ok ==> !validate_overflows(
            *old(ctx),
            transaction_hashes@.len(),
        ),
    ensures
        (*final(ctx), r) == validate_instruction(*old(ctx), *clock, transaction_hashes@),
{
    match ctx.check_constraints() {
        Err(e) => Err(InstructionError::Constraint(e)),
        Ok(_) => program_error(handle_validate_parallel_execution(ctx, clock, transaction_hashes)),
    }
}

/// What `finalize_epoch` does to its accounts and returns.
pub open spec fn finalize_instruction(ctx: FinalizeEpoch, clock: Clock) -> (
    FinalizeEpoch,
    Result<EpochFinalized, InstructionError>,
) {
    match ctx.constraints_hold() {
        Err(e) => (ctx, Err(InstructionError::Constraint(e))),
        Ok(_) => {
            let (next, r) = finalize_outcome(ctx, clock);
            (next, program_result(r))
        },
    }
}

/// Finalizes the epoch of a state of the signer.
pub fn finalize_epoch(ctx: &mut FinalizeEpoch, clock: &Clock) -> (r: Result<
    EpochFinalized,
    InstructionError,
>)
    requires
        old(ctx).constraints_hold() is Ok ==> !finalize_overflows(*old(ctx)),
    ensures
        (*final(ctx), r) == finalize_instruction(*old(ctx), *clock),
{
    match ctx.check_constraints() {
        Err(e) => Err(InstructionError::Constraint(e)),
        Ok(_) => program_error(handle_finalize_epoch(ctx, clock)),
    }
}

/// What `resolve_conflict` does to its accounts and returns.
pub open spec fn resolve_instruction(
    ctx: ResolveConflict,
    clock: Clock,
    conflict_id: u64,
    resolution: u8,
) -> (ResolveConflict, Result<ConflictResolved, InstructionError>) {
    match ctx.constraints_hold() {
        Err(e) => (ctx, Err(InstructionError::Constraint(e))),
        Ok(_) => {
            let (next, r) = resolve_outcome(ctx, clock, conflict_id, resolution);
            (next, program_result(r))
        },
    }
}

/// Records the resolution of a conflict of a state of the signer.
pub fn resolve_conflict(
    ctx: &mut ResolveConflict,
    clock: &Clock,
    conflict_id: u64,
    resolution: u8,
) -> (r: Result<ConflictResolved, InstructionError>)
    requires
        old(ctx).constraints_hold() is Ok ==> !resolve_overflows(*old(ctx), resolution),
    ensures
        (*final(ctx), r) == resolve_instruction(*old(ctx), *clock, conflict_id, resolution),
{
    match ctx.check_constraints() {
        Err(e) => Err(InstructionError::Constraint(e)),
        Ok(_) => program_error(handle_resolve_conflict(ctx, clock, conflict_id, resolution)),
    }
}

/// What `burn_mono_fee` does to its accounts and returns.
pub open spec fn burn_instruction(ctx: BurnMonoFee, amount: u64) -> (
    BurnMonoFee,
    Result<MonoFeeBurned, InstructionError>,
) {
    match ctx.constraints_hold() {
        Err(e) => (ctx, Err(InstructionError::Constraint(e))),
        Ok(_) => {
            let (next, r) = burn_outcome(ctx, amount);
            (next, program_result(r))
        },
    }
}

/// Burns an amount of the fee token against a state of the signer.
pub fn burn_mono_fee(ctx: &mut BurnMonoFee, amount: u64) -> (r: Result<
    MonoFeeBurned,
    InstructionError,
>)
    requires
        old(ctx).constraints_hold() is Ok ==> !burn_overflows(*old(ctx), amount),
    ensures
        (*final(ctx), r) == burn_instruction(*old(ctx), amount),
{
    match ctx.check_constraints() {
        Err(e) => Err(InstructionError::Constraint(e)),
        Ok(_) => program_error(handle_burn_mono_fee(ctx, amount)),
    }
}

/// An epoch is finalized at most once: once `finalize_epoch` has succeeded,
/// finalizing the resulting state again is refused with
/// `EpochAlreadyFinalized` and changes nothing.
pub proof fn lemma_finalize_is_one_shot(ctx: FinalizeEpoch, clock: Clock, later: Clock)
    requires
        finalize_instruction(ctx, clock).1 is Ok,
    ensures
        ({
            let after = finalize_instruction(ctx, clock).0;
            finalize_instruction(after, later) == (
                after,
                Err::<EpochFinalized, InstructionError>(
                    InstructionError::Program(MonoGirlError::EpochAlreadyFinalized),
                ),
            )
        }),
{
}

/// A finalized state takes no more bundles: `submit_cpe_bundle` on it is
/// refused by the account constraints and changes nothing.
pub proof fn lemma_finalized_state_takes_no_bundle(
    ctx: SubmitCpeBundle,
    clock: Clock,
    bundle_data: Seq<u8>,
    merkle_root: [u8; 32],
)
    requires
        ctx.cpe_state.is_finalized,
    ensures
        submit_instruction(ctx, clock, bundle_data, merkle_root).0 == ctx,
        submit_instruction(ctx, clock, bundle_data, merkle_root).1 matches Err(
            InstructionError::Constraint(_),
        ),
{
}

/// An instruction that is refused, by a constraint or by its handler,
/// leaves every account as it was.
pub proof fn lemma_refused_instruction_changes_nothing(
    submit: SubmitCpeBundle,
    validate: ValidateParallelExecution,
    finalize: FinalizeEpoch,
    resolve: ResolveConflict,
    burn: BurnMonoFee,
    clock: Clock,
    bundle_data: Seq<u8>,
    merkle_root: [u8; 32],
    transaction_hashes: Seq<[u8; 32]>,
    conflict_id: u64,
    resolution: u8,
    amount: u64,
)
    ensures
        submit_instruction(submit, clock, bundle_data, merkle_root).1 is Err ==> submit_instruction(
            submit,
            clock,
            bundle_data,
            merkle_root,
        ).0 == submit,
        validate_instruction(validate, clock, transaction_hashes).1 is Err ==> validate_instruction(
            validate,
            clock,
            transaction_hashes,
        ).0 == validate,
        finalize_instruction(finalize, clock).1 is Err ==> finalize_instruction(finalize, clock).0
            == finalize,
        resolve_instruction(resolve, clock, conflict_id, resolution).1 is Err
            ==> resolve_instruction(resolve, clock, conflict_id, resolution).0 == resolve,
        burn_instruction(burn, amount).1 is Err ==> burn_instruction(burn, amount).0 == burn,
{
}

/// Burning keeps the authority's tracker and the state in step: the
/// difference between the tracker's burned total and the state's burned
/// total is the same before and after every `burn_mono_fee`.
pub proof fn lemma_burn_keeps_totals_in_step(ctx: BurnMonoFee, amount: u64)
    requires
        ctx.constraints_hold() is Ok ==> !burn_overflows(ctx, amount),
    ensures
        ({
            let after = burn_instruction(ctx, amount).0;
            after.epoch_tracker.total_mono_burned - after.cpe_state.mono_burned
                == ctx.epoch_tracker.total_mono_burned - ctx.cpe_state.mono_burned
        }),
{
}

} // verus!
