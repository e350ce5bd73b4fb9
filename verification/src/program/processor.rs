//! The instruction handlers of the bundle program.
//!
//! Each handler takes the accounts of its instruction, already checked
//! against their constraints, and the cluster clock. It either refuses the
//! instruction with an error and leaves every account as it was, or updates
//! the accounts and returns the event that the instruction emits. Each one
//! is stated as a transition function over plain values (`*_outcome`).
use vstd::prelude::*;

use crate::hashing::{
    append_bytes, is_zero_hash, lemma_sha256_array, sha256, sha256_array, sha256_digest, zero_bytes32,
    zero_hash,
};
use crate::program::contexts::{
    BurnMonoFee, FinalizeEpoch, InitializeCpeState, ResolveConflict, SubmitCpeBundle,
    ValidateParallelExecution,
};
use crate::program::errors::MonoGirlError;
use crate::program::events::{
    ConflictResolved, CpeBundleSubmitted, CpeStateInitialized, EpochFinalized, MonoFeeBurned,
    ParallelExecutionValidated,
};
use crate::program::state::{Clock, ConflictRecord, CpeBundle, CpeState, EpochTracker};
use crate::program::utils::concat_hashes;

verus! {

/// The largest bundle payload, in bytes.
pub const MAX_BUNDLE_DATA_SIZE: usize = 1024;

/// The largest bundle depth a state may be created with.
pub const MAX_BUNDLE_DEPTH: u8 = 32;

/// The fewest transaction hashes a validation takes.
pub const MIN_TRANSACTIONS_FOR_VALIDATE: usize = 2;

// ---------------------------------------------------------------------------
// initialize_cpe_state
// ---------------------------------------------------------------------------

/// A new state for the authority and epoch, all counters at zero; the
/// authority's tracker moves to the epoch.
pub open spec fn initialize_outcome(
    ctx: InitializeCpeState,
    clock: Clock,
    max_depth: u8,
    epoch: u64,
) -> (InitializeCpeState, Result<CpeStateInitialized, MonoGirlError>) {
    if max_depth > MAX_BUNDLE_DEPTH {
        (ctx, Err(MonoGirlError::BundleDepthExceeded))
    } else {
        let state = CpeState {
            authority: ctx.authority,
            epoch: epoch,
            max_depth: max_depth,
            bundle_count: 0,
            merkle_root: zero_bytes32(),
            is_finalized: false,
            last_update_slot: clock.slot,
            total_transactions: 0,
            conflict_count: 0,
            mono_burned: 0,
            _padding: ctx.cpe_state._padding,
        };
        let tracker = EpochTracker {
            authority: ctx.authority,
            current_epoch: epoch,
            epoch_start_slot: clock.slot,
            ..ctx.epoch_tracker
        };
        (
            InitializeCpeState { cpe_state: state, epoch_tracker: tracker, authority: ctx.authority },
            Ok(CpeStateInitialized { authority: ctx.authority, epoch: epoch, max_depth: max_depth }),
        )
    }
}

pub fn handle_initialize_cpe_state(
    ctx: &mut InitializeCpeState,
    clock: &Clock,
    max_depth: u8,
    epoch: u64,
) -> (r: Result<CpeStateInitialized, MonoGirlError>)
    ensures
        (*final(ctx), r) == initialize_outcome(*old(ctx), *clock, max_depth, epoch),
        r is Err ==> *final(ctx) == *old(ctx),
{
    if max_depth > MAX_BUNDLE_DEPTH {
        return Err(MonoGirlError::BundleDepthExceeded);
    }
    let authority = ctx.authority;
    ctx.cpe_state.authority = authority;
    ctx.cpe_state.epoch = epoch;
    ctx.cpe_state.max_depth = max_depth;
    ctx.cpe_state.bundle_count = 0;
    ctx.cpe_state.merkle_root = [0u8; 32];
    ctx.cpe_state.is_finalized = false;
    ctx.cpe_state.last_update_slot = clock.slot;
    ctx.cpe_state.total_transactions = 0;
    ctx.cpe_state.conflict_count = 0;
    ctx.cpe_state.mono_burned = 0;
    assert(ctx.cpe_state.merkle_root =~= zero_bytes32());

    ctx.epoch_tracker.authority = authority;
    ctx.epoch_tracker.current_epoch = epoch;
    ctx.epoch_tracker.epoch_start_slot = clock.slot;

    Ok(CpeStateInitialized { authority, epoch, max_depth })
}

// ---------------------------------------------------------------------------
// submit_cpe_bundle
// ---------------------------------------------------------------------------

/// The inputs on which submitting panics: a payload and root that pass the
/// checks while the bundle count is already at its largest value.
pub open spec fn submit_overflows(ctx: SubmitCpeBundle, data_len: nat, merkle_root: [u8; 32]) -> bool {
    &&& data_len <= MAX_BUNDLE_DATA_SIZE
    &&& merkle_root@ != zero_hash()
    &&& ctx.cpe_state.bundle_count == u32::MAX
}

/// A payload of at most `MAX_BUNDLE_DATA_SIZE` bytes under a non-zero root
/// is recorded in the fresh bundle account with its SHA-256 digest; the
/// state counts one more bundle and takes the root.
pub open spec fn submit_outcome(
    ctx: SubmitCpeBundle,
    clock: Clock,
    bundle_data: Seq<u8>,
    merkle_root: [u8; 32],
) -> (SubmitCpeBundle, Result<CpeBundleSubmitted, MonoGirlError>) {
    if bundle_data.len() > MAX_BUNDLE_DATA_SIZE {
        (ctx, Err(MonoGirlError::BundleDataTooLarge))
    } else if merkle_root@ == zero_hash() {
        (ctx, Err(MonoGirlError::InvalidMerkleRoot))
    } else {
        let bundle_hash = sha256_array(bundle_data);
        let count = (ctx.cpe_state.bundle_count + 1) as u32;
        let bundle = CpeBundle {
            state: ctx.cpe_state_key,
            submitter: ctx.authority,
            bundle_hash: bundle_hash,
            merkle_root: merkle_root,
            slot: clock.slot,
            timestamp: clock.unix_timestamp,
            is_verified: false,
            depth: 0,
            ..ctx.cpe_bundle
        };
        let state = CpeState {
            bundle_count: count,
            merkle_root: merkle_root,
            last_update_slot: clock.slot,
            ..ctx.cpe_state
        };
        (
            SubmitCpeBundle { cpe_state: state, cpe_bundle: bundle, ..ctx },
            Ok(
                CpeBundleSubmitted {
                    state: ctx.cpe_state_key,
                    submitter: ctx.authority,
                    bundle_hash: bundle_hash,
                    bundle_count: count,
                },
            ),
        )
    }
}

pub fn handle_submit_cpe_bundle(
    ctx: &mut SubmitCpeBundle,
    clock: &Clock,
    bundle_data: &Vec<u8>,
    merkle_root: [u8; 32],
) -> (r: Result<CpeBundleSubmitted, MonoGirlError>)
    requires
        !submit_overflows(*old(ctx), bundle_data@.len(), merkle_root),
    ensures
        (*final(ctx), r) == submit_outcome(*old(ctx), *clock, bundle_data@, merkle_root),
        r matches Ok(e) ==> e.bundle_hash@ == sha256_digest(bundle_data@),
        r is Err ==> *final(ctx) == *old(ctx),
{
    if bundle_data.len() > MAX_BUNDLE_DATA_SIZE {
        return Err(MonoGirlError::BundleDataTooLarge);
    }
    if is_zero_hash(&merkle_root) {
        return Err(MonoGirlError::InvalidMerkleRoot);
    }
    let bundle_hash = sha256(bundle_data.as_slice());
    proof {
        lemma_sha256_array(bundle_data@, bundle_hash);
    }
    let state_key = ctx.cpe_state_key;
    let authority = ctx.authority;

    ctx.cpe_bundle.state = state_key;
    ctx.cpe_bundle.submitter = authority;
    ctx.cpe_bundle.bundle_hash = bundle_hash;
    ctx.cpe_bundle.merkle_root = merkle_root;
    ctx.cpe_bundle.slot = clock.slot;
    ctx.cpe_bundle.timestamp = clock.unix_timestamp;
    ctx.cpe_bundle.is_verified = false;
    ctx.cpe_bundle.depth = 0;

    ctx.cpe_state.bundle_count = ctx.cpe_state.bundle_count + 1;
    ctx.cpe_state.merkle_root = merkle_root;
    ctx.cpe_state.last_update_slot = clock.slot;

    Ok(
        CpeBundleSubmitted {
            state: state_key,
            submitter: authority,
            bundle_hash,
            bundle_count: ctx.cpe_state.bundle_count,
        },
    )
}

// ---------------------------------------------------------------------------
// validate_parallel_execution
// ---------------------------------------------------------------------------

/// The inputs on which validating panics: enough hashes, but their number
/// does not fit in the state's transaction total.
pub open spec fn validate_overflows(ctx: ValidateParallelExecution, count: nat) -> bool {
    count >= MIN_TRANSACTIONS_FOR_VALIDATE && ctx.cpe_state.total_transactions + count > u64::MAX
}

/// At least `MIN_TRANSACTIONS_FOR_VALIDATE` hashes are counted into the
/// state's transaction total; the event carries the SHA-256 digest of the
/// hashes written one after the other, and their number cut to 32 bits.
pub open spec fn validate_outcome(
    ctx: ValidateParallelExecution,
    clock: Clock,
    transaction_hashes: Seq<[u8; 32]>,
) -> (ValidateParallelExecution, Result<ParallelExecutionValidated, MonoGirlError>) {
    let count = transaction_hashes.len();
    if count < MIN_TRANSACTIONS_FOR_VALIDATE {
        (ctx, Err(MonoGirlError::InsufficientTransactions))
    } else {
        let state = CpeState {
            total_transactions: (ctx.cpe_state.total_transactions + count) as u64,
            last_update_slot: clock.slot,
            ..ctx.cpe_state
        };
        (
            ValidateParallelExecution { cpe_state: state, ..ctx },
            Ok(
                ParallelExecutionValidated {
                    state: ctx.cpe_state_key,
                    tx_count: count as u32,
                    validation_hash: sha256_array(concat_hashes(transaction_hashes)),
                },
            ),
        )
    }
}

/// The bytes of the hashes written one after the other.
fn concat_transaction_hashes(hashes: &Vec<[u8; 32]>) -> (out: Vec<u8>)
    ensures
        out@ == concat_hashes(hashes@),
{
    let mut combined: Vec<u8> = Vec::new();
    let mut i: usize = 0;
    while i < hashes.len()
        invariant
            i <= hashes@.len(),
            combined@ == concat_hashes(hashes@.take(i as int)),
        decreases hashes@.len() - i,
    {
        append_bytes(&mut combined, &hashes[i]);
        proof {
            let t = hashes@.take(i + 1);
            assert(t.drop_last() == hashes@.take(i as int));
            assert(t.last() == hashes@[i as int]);
        }
        i = i + 1;
    }
    assert(hashes@.take(i as int) == hashes@);
    combined
}

pub fn handle_validate_parallel_execution(
    ctx: &mut ValidateParallelExecution,
    clock: &Clock,
    transaction_hashes: &Vec<[u8; 32]>,
) -> (r: Result<ParallelExecutionValidated, MonoGirlError>)
    requires
        !validate_overflows(*old(ctx), transaction_hashes@.len()),
    ensures
        (*final(ctx), r) == validate_outcome(*old(ctx), *clock, transaction_hashes@),
        r matches Ok(e) ==> e.validation_hash@ == sha256_digest(concat_hashes(transaction_hashes@)),
        r is Err ==> *final(ctx) == *old(ctx),
{
    if transaction_hashes.len() < MIN_TRANSACTIONS_FOR_VALIDATE {
        return Err(MonoGirlError::InsufficientTransactions);
    }
    let combined = concat_transaction_hashes(transaction_hashes);
    let validation_hash = sha256(combined.as_slice());
    proof {
        lemma_sha256_array(combined@, validation_hash);
    }
    let count = transaction_hashes.len();
    ctx.cpe_state.total_transactions = ctx.cpe_state.total_transactions + count as u64;
    ctx.cpe_state.last_update_slot = clock.slot;

    Ok(
        ParallelExecutionValidated {
            state: ctx.cpe_state_key,
            tx_count: count as u32,
            validation_hash,
        },
    )
}

// ---------------------------------------------------------------------------
// finalize_epoch
// ---------------------------------------------------------------------------

/// The inputs on which finalizing panics: the tracker's totals cannot take
/// the state's bundle or conflict count.
pub open spec fn finalize_overflows(ctx: FinalizeEpoch) -> bool {
    &&& !ctx.cpe_state.is_finalized
    &&& {
        ||| ctx.epoch_tracker.total_bundles + ctx.cpe_state.bundle_count > u64::MAX
        ||| ctx.epoch_tracker.total_conflicts_resolved + ctx.cpe_state.conflict_count > u64::MAX
    }
}

/// A state that is not yet finalized becomes finalized, and the tracker
/// adds the state's bundles and resolved conflicts to its totals.
pub open spec fn finalize_outcome(ctx: FinalizeEpoch, clock: Clock) -> (
    FinalizeEpoch,
    Result<EpochFinalized, MonoGirlError>,
) {
    if ctx.cpe_state.is_finalized {
        (ctx, Err(MonoGirlError::EpochAlreadyFinalized))
    } else {
        let state = CpeState { is_finalized: true, last_update_slot: clock.slot, ..ctx.cpe_state };
        let tracker = EpochTracker {
            total_bundles: (ctx.epoch_tracker.total_bundles + ctx.cpe_state.bundle_count) as u64,
            total_conflicts_resolved: (ctx.epoch_tracker.total_conflicts_resolved
                + ctx.cpe_state.conflict_count) as u64,
            ..ctx.epoch_tracker
        };
        (
            FinalizeEpoch { cpe_state: state, epoch_tracker: tracker, ..ctx },
            Ok(
                EpochFinalized {
                    epoch: ctx.cpe_state.epoch,
                    total_bundles: ctx.cpe_state.bundle_count,
                    total_transactions: ctx.cpe_state.total_transactions,
                },
            ),
        )
    }
}

pub fn handle_finalize_epoch(ctx: &mut FinalizeEpoch, clock: &Clock) -> (r: Result<
    EpochFinalized,
    MonoGirlError,
>)
    requires
        !finalize_overflows(*old(ctx)),
    ensures
        (*final(ctx), r) == finalize_outcome(*old(ctx), *clock),
        r is Err ==> *final(ctx) == *old(ctx),
{
    if ctx.cpe_state.is_finalized {
        return Err(MonoGirlError::EpochAlreadyFinalized);
    }
    ctx.cpe_state.is_finalized = true;
    ctx.cpe_state.last_update_slot = clock.slot;

    ctx.epoch_tracker.total_bundles = ctx.epoch_tracker.total_bundles
        + ctx.cpe_state.bundle_count as u64;
    ctx.epoch_tracker.total_conflicts_resolved = ctx.epoch_tracker.total_conflicts_resolved
        + ctx.cpe_state.conflict_count as u64;

    Ok(
        EpochFinalized {
            epoch: ctx.cpe_state.epoch,
            total_bundles: ctx.cpe_state.bundle_count,
            total_transactions: ctx.cpe_state.total_transactions,
        },
    )
}

// ---------------------------------------------------------------------------
// resolve_conflict
// ---------------------------------------------------------------------------

/// The inputs on which resolving panics: a valid resolution while the
/// state's conflict count is at its largest value.
pub open spec fn resolve_overflows(ctx: ResolveConflict, resolution: u8) -> bool {
    resolution <= 2 && ctx.cpe_state.conflict_count == u32::MAX
}

/// A resolution of 0, 1 or 2 is recorded in the fresh conflict record with
/// the clock's time, and the state counts one more conflict.
pub open spec fn resolve_outcome(
    ctx: ResolveConflict,
    clock: Clock,
    conflict_id: u64,
    resolution: u8,
) -> (ResolveConflict, Result<ConflictResolved, MonoGirlError>) {
    if resolution > 2 {
        (ctx, Err(MonoGirlError::InvalidResolution))
    } else {
        let record = ConflictRecord {
            state: ctx.cpe_state_key,
            conflict_id: conflict_id,
            resolution: resolution,
            resolved_at: clock.unix_timestamp,
            resolver: ctx.authority,
            ..ctx.conflict_record
        };
        let state = CpeState {
            conflict_count: (ctx.cpe_state.conflict_count + 1) as u32,
            last_update_slot: clock.slot,
            ..ctx.cpe_state
        };
        (
            ResolveConflict { cpe_state: state, conflict_record: record, ..ctx },
            Ok(
                ConflictResolved {
                    state: ctx.cpe_state_key,
                    conflict_id: conflict_id,
                    resolution: resolution,
                    resolver: ctx.authority,
                },
            ),
        )
    }
}

pub fn handle_resolve_conflict(
    ctx: &mut ResolveConflict,
    clock: &Clock,
    conflict_id: u64,
    resolution: u8,
) -> (r: Result<ConflictResolved, MonoGirlError>)
    requires
        !resolve_overflows(*old(ctx), resolution),
    ensures
        (*final(ctx), r) == resolve_outcome(*old(ctx), *clock, conflict_id, resolution),
        r is Err ==> *final(ctx) == *old(ctx),
{
    if resolution > 2 {
        return Err(MonoGirlError::InvalidResolution);
    }
    let state_key = ctx.cpe_state_key;
    let authority = ctx.authority;
    ctx.conflict_record.state = state_key;
    ctx.conflict_record.conflict_id = conflict_id;
    ctx.conflict_record.resolution = resolution;
    ctx.conflict_record.resolved_at = clock.unix_timestamp;
    ctx.conflict_record.resolver = authority;

    ctx.cpe_state.conflict_count = ctx.cpe_state.conflict_count + 1;
    ctx.cpe_state.last_update_slot = clock.slot;

    Ok(ConflictResolved { state: state_key, conflict_id, resolution, resolver: authority })
}

// ---------------------------------------------------------------------------
// burn_mono_fee
// ---------------------------------------------------------------------------

/// The inputs on which burning panics: a positive amount that the state's
/// or the tracker's burned total cannot take.
pub open spec fn burn_overflows(ctx: BurnMonoFee, amount: u64) -> bool {
    &&& amount > 0
    &&& {
        ||| ctx.cpe_state.mono_burned + amount > u64::MAX
        ||| ctx.epoch_tracker.total_mono_burned + amount > u64::MAX
    }
}

/// A positive amount is added to the state's and to the tracker's burned
/// totals.
pub open spec fn burn_outcome(ctx: BurnMonoFee, amount: u64) -> (
    BurnMonoFee,
    Result<MonoFeeBurned, MonoGirlError>,
) {
    if amount == 0 {
        (ctx, Err(MonoGirlError::InsufficientMonoBurned))
    } else {
        let burned = (ctx.cpe_state.mono_burned + amount) as u64;
        let state = CpeState { mono_burned: burned, ..ctx.cpe_state };
        let tracker = EpochTracker {
            total_mono_burned: (ctx.epoch_tracker.total_mono_burned + amount) as u64,
            ..ctx.epoch_tracker
        };
        (
            BurnMonoFee { cpe_state: state, epoch_tracker: tracker, ..ctx },
            Ok(MonoFeeBurned { state: ctx.cpe_state_key, amount: amount, total_burned: burned }),
        )
    }
}

pub fn handle_burn_mono_fee(ctx: &mut BurnMonoFee, amount: u64) -> (r: Result<
    MonoFeeBurned,
    MonoGirlError,
>)
    requires
        !burn_overflows(*old(ctx), amount),
    ensures
        (*final(ctx), r) == burn_outcome(*old(ctx), amount),
        r is Err ==> *final(ctx) == *old(ctx),
        final(ctx).epoch_tracker.total_mono_burned - final(ctx).cpe_state.mono_burned
            == old(ctx).epoch_tracker.total_mono_burned - old(ctx).cpe_state.mono_burned,
{
    if amount == 0 {
        return Err(MonoGirlError::InsufficientMonoBurned);
    }
    ctx.cpe_state.mono_burned = ctx.cpe_state.mono_burned + amount;
    ctx.epoch_tracker.total_mono_burned = ctx.epoch_tracker.total_mono_burned + amount;

    Ok(
        MonoFeeBurned {
            state: ctx.cpe_state_key,
            amount,
            total_burned: ctx.cpe_state.mono_burned,
        },
    )
}

// ---------------------------------------------------------------------------
// What each handler does, field by field
// ---------------------------------------------------------------------------

/// Initializing succeeds exactly for a depth of at most 32. The new state
/// belongs to the signer, is for the requested epoch and depth, has every
/// counter at zero, a zero root, is open and stamped with the clock's slot;
/// the tracker moves to the epoch from the clock's slot and keeps its
/// totals; the event repeats authority, epoch and depth.
pub proof fn lemma_initialize_fields(ctx: InitializeCpeState, clock: Clock, max_depth: u8, epoch: u64)
    ensures
        ({
            let (after, r) = initialize_outcome(ctx, clock, max_depth, epoch);
            &&& r is Ok <==> max_depth <= 32
            &&& r is Ok ==> {
                let s = after.cpe_state;
                let t = after.epoch_tracker;
                &&& s.authority == ctx.authority
                &&& s.epoch == epoch
                &&& s.max_depth == max_depth
                &&& s.bundle_count == 0
                &&& forall|k: int| 0 <= k < 32 ==> s.merkle_root@[k] == 0u8
                &&& !s.is_finalized
                &&& s.last_update_slot == clock.slot
                &&& s.total_transactions == 0
                &&& s.conflict_count == 0
                &&& s.mono_burned == 0
                &&& t.authority == ctx.authority
                &&& t.current_epoch == epoch
                &&& t.epoch_start_slot == clock.slot
                &&& t.total_bundles == ctx.epoch_tracker.total_bundles
                &&& t.total_conflicts_resolved == ctx.epoch_tracker.total_conflicts_resolved
                &&& t.total_mono_burned == ctx.epoch_tracker.total_mono_burned
                &&& after.authority == ctx.authority
                &&& r->Ok_0.authority == ctx.authority
                &&& r->Ok_0.epoch == epoch
                &&& r->Ok_0.max_depth == max_depth
            }
        }),
{
}

/// Submitting succeeds exactly for a payload of at most 1024 bytes under a
/// non-zero root. The state then counts one bundle more, takes the root
/// and the clock's slot, and keeps everything else; the bundle account
/// records state, submitter, root, slot and time, unverified at depth
/// zero; the event carries the new count and the bundle's hash.
pub proof fn lemma_submit_fields(ctx: SubmitCpeBundle, clock: Clock, bundle_data: Seq<u8>, merkle_root: [u8; 32])
    requires
        !submit_overflows(ctx, bundle_data.len(), merkle_root),
    ensures
        ({
            let (after, r) = submit_outcome(ctx, clock, bundle_data, merkle_root);
            &&& r is Ok <==> (bundle_data.len() <= 1024 && exists|k: int| 0 <= k < 32 && merkle_root@[k] != 0u8)
            &&& r is Ok ==> {
                let s = after.cpe_state;
                let b = after.cpe_bundle;
                &&& s.bundle_count == ctx.cpe_state.bundle_count + 1
                &&& s.merkle_root == merkle_root
                &&& s.last_update_slot == clock.slot
                &&& s.authority == ctx.cpe_state.authority
                &&& s.epoch == ctx.cpe_state.epoch
                &&& s.max_depth == ctx.cpe_state.max_depth
                &&& s.is_finalized == ctx.cpe_state.is_finalized
                &&& s.total_transactions == ctx.cpe_state.total_transactions
                &&& s.conflict_count == ctx.cpe_state.conflict_count
                &&& s.mono_burned == ctx.cpe_state.mono_burned
                &&& b.state == ctx.cpe_state_key
                &&& b.submitter == ctx.authority
                &&& b.merkle_root == merkle_root
                &&& b.slot == clock.slot
                &&& b.timestamp == clock.unix_timestamp
                &&& !b.is_verified
                &&& b.depth == 0
                &&& b.tx_count == ctx.cpe_bundle.tx_count
                &&& after.cpe_state_key == ctx.cpe_state_key
                &&& after.authority == ctx.authority
                &&& r->Ok_0.state == ctx.cpe_state_key
                &&& r->Ok_0.submitter == ctx.authority
                &&& r->Ok_0.bundle_hash == b.bundle_hash
                &&& r->Ok_0.bundle_count == s.bundle_count
            }
        }),
{
    if bundle_data.len() <= 1024 && (exists|k: int| 0 <= k < 32 && merkle_root@[k] != 0u8) {
        let k = choose|k: int| 0 <= k < 32 && merkle_root@[k] != 0u8;
        assert(merkle_root@[k] != zero_hash()[k]);
    }
    if merkle_root@ != zero_hash() {
        assert(!(merkle_root@ =~= zero_hash()));
    }
}

/// Validating succeeds exactly for at least two hashes. The state's
/// transaction total then grows by their number and takes the clock's
/// slot, everything else kept; the event carries their number when it
/// fits in 32 bits.
pub proof fn lemma_validate_fields(ctx: ValidateParallelExecution, clock: Clock, transaction_hashes: Seq<[u8; 32]>)
    requires
        !validate_overflows(ctx, transaction_hashes.len()),
    ensures
        ({
            let (after, r) = validate_outcome(ctx, clock, transaction_hashes);
            &&& r is Ok <==> transaction_hashes.len() >= 2
            &&& r is Ok ==> {
                let s = after.cpe_state;
                &&& s.total_transactions == ctx.cpe_state.total_transactions + transaction_hashes.len()
                &&& s.last_update_slot == clock.slot
                &&& s.bundle_count == ctx.cpe_state.bundle_count
                &&& s.merkle_root == ctx.cpe_state.merkle_root
                &&& s.is_finalized == ctx.cpe_state.is_finalized
                &&& s.conflict_count == ctx.cpe_state.conflict_count
                &&& s.mono_burned == ctx.cpe_state.mono_burned
                &&& s.authority == ctx.cpe_state.authority
                &&& s.epoch == ctx.cpe_state.epoch
                &&& r->Ok_0.state == ctx.cpe_state_key
                &&& transaction_hashes.len() <= u32::MAX ==> r->Ok_0.tx_count == transaction_hashes.len()
            }
        }),
{
}

/// Finalizing succeeds exactly on a state that is not finalized. The state
/// is then finalized at the clock's slot, the tracker's totals grow by the
/// state's bundle and conflict counts, and the event reports epoch, bundle
/// count and transaction total.
pub proof fn lemma_finalize_fields(ctx: FinalizeEpoch, clock: Clock)
    requires
        !finalize_overflows(ctx),
    ensures
        ({
            let (after, r) = finalize_outcome(ctx, clock);
            &&& r is Ok <==> !ctx.cpe_state.is_finalized
            &&& r is Ok ==> {
                let s = after.cpe_state;
                let t = after.epoch_tracker;
                &&& s.is_finalized
                &&& s.last_update_slot == clock.slot
                &&& s.bundle_count == ctx.cpe_state.bundle_count
                &&& s.conflict_count == ctx.cpe_state.conflict_count
                &&& s.total_transactions == ctx.cpe_state.total_transactions
                &&& s.mono_burned == ctx.cpe_state.mono_burned
                &&& t.total_bundles == ctx.epoch_tracker.total_bundles + ctx.cpe_state.bundle_count
                &&& t.total_conflicts_resolved == ctx.epoch_tracker.total_conflicts_resolved
                    + ctx.cpe_state.conflict_count
                &&& t.total_mono_burned == ctx.epoch_tracker.total_mono_burned
                &&& t.current_epoch == ctx.epoch_tracker.current_epoch
                &&& r->Ok_0.epoch == ctx.cpe_state.epoch
                &&& r->Ok_0.total_bundles == ctx.cpe_state.bundle_count
                &&& r->Ok_0.total_transactions == ctx.cpe_state.total_transactions
            }
        }),
{
}

/// Resolving succeeds exactly for a resolution of 0, 1 or 2. The conflict
/// record then holds the state, the conflict id, the resolution, the
/// clock's time and the signer; the state counts one conflict more at the
/// clock's slot; the event repeats state, id, resolution and signer.
pub proof fn lemma_resolve_fields(ctx: ResolveConflict, clock: Clock, conflict_id: u64, resolution: u8)
    requires
        !resolve_overflows(ctx, resolution),
    ensures
        ({
            let (after, r) = resolve_outcome(ctx, clock, conflict_id, resolution);
            &&& r is Ok <==> resolution <= 2
            &&& r is Ok ==> {
                let c = after.conflict_record;
                let s = after.cpe_state;
                &&& c.state == ctx.cpe_state_key
                &&& c.conflict_id == conflict_id
                &&& c.resolution == resolution
                &&& c.resolved_at == clock.unix_timestamp
                &&& c.resolver == ctx.authority
                &&& c.tx_hash_a == ctx.conflict_record.tx_hash_a
                &&& c.tx_hash_b == ctx.conflict_record.tx_hash_b
                &&& s.conflict_count == ctx.cpe_state.conflict_count + 1
                &&& s.last_update_slot == clock.slot
                &&& s.bundle_count == ctx.cpe_state.bundle_count
                &&& s.is_finalized == ctx.cpe_state.is_finalized
                &&& s.mono_burned == ctx.cpe_state.mono_burned
                &&& r->Ok_0.state == ctx.cpe_state_key
                &&& r->Ok_0.conflict_id == conflict_id
                &&& r->Ok_0.resolution == resolution
                &&& r->Ok_0.resolver == ctx.authority
            }
        }),
{
}

/// Burning succeeds exactly for a positive amount, which is then added to
/// the state's and to the tracker's burned totals; the event carries the
/// amount and the state's new total.
pub proof fn lemma_burn_fields(ctx: BurnMonoFee, amount: u64)
    requires
        !burn_overflows(ctx, amount),
    ensures
        ({
            let (after, r) = burn_outcome(ctx, amount);
            &&& r is Ok <==> amount > 0
            &&& r is Ok ==> {
                &&& after.cpe_state.mono_burned == ctx.cpe_state.mono_burned + amount
                &&& after.epoch_tracker.total_mono_burned == ctx.epoch_tracker.total_mono_burned + amount
                &&& after.cpe_state.bundle_count == ctx.cpe_state.bundle_count
                &&& after.cpe_state.last_update_slot == ctx.cpe_state.last_update_slot
                &&& after.cpe_state.is_finalized == ctx.cpe_state.is_finalized
                &&& after.epoch_tracker.total_bundles == ctx.epoch_tracker.total_bundles
                &&& r->Ok_0.state == ctx.cpe_state_key
                &&& r->Ok_0.amount == amount
                &&& r->Ok_0.total_burned == after.cpe_state.mono_burned
            }
        }),
{
}

} // verus!
