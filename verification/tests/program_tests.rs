use monogirl::program::contexts::{
    BurnMonoFee, FinalizeEpoch, InitializeCpeState, ResolveConflict, SubmitCpeBundle,
    ValidateParallelExecution,
};
use monogirl::program::errors::{ConstraintError, InstructionError, MonoGirlError};
use monogirl::program::instructions::{
    burn_mono_fee, finalize_epoch, initialize_cpe_state, resolve_conflict, submit_cpe_bundle,
    validate_parallel_execution,
};
use monogirl::program::processor::{
    handle_burn_mono_fee, handle_finalize_epoch, handle_initialize_cpe_state,
    handle_resolve_conflict, handle_submit_cpe_bundle, handle_validate_parallel_execution,
};
use monogirl::program::state::{Clock, CpeState, EpochTracker};
use monogirl::program::utils::{
    check_account_overlap, combine_hashes, compute_bundle_hash, compute_hash, verify_hash_chain,
};
use sha2::{Digest, Sha256};

const AUTHORITY: [u8; 32] = [7u8; 32];
const STATE_KEY: [u8; 32] = [9u8; 32];

fn clock() -> Clock {
    Clock { slot: 1234, unix_timestamp: 1_700_000_000 }
}

fn state() -> CpeState {
    CpeState { authority: AUTHORITY, epoch: 420, max_depth: 8, ..CpeState::default() }
}

fn sha256_of(data: &[u8]) -> [u8; 32] {
    let mut h = Sha256::new();
    h.update(data);
    h.finalize().into()
}

// ---------------------------------------------------------------------------
// Hashing helpers
// ---------------------------------------------------------------------------

#[test]
fn test_compute_hash() {
    let data = b"test data";
    let hash = compute_hash(data);
    assert_ne!(hash, [0u8; 32]);
}

#[test]
fn test_combine_hashes_deterministic() {
    let a = compute_hash(b"a");
    let b = compute_hash(b"b");
    let result1 = combine_hashes(&a, &b);
    let result2 = combine_hashes(&a, &b);
    assert_eq!(result1, result2);
}

#[test]
fn test_combine_hashes_order_matters() {
    let a = compute_hash(b"a");
    let b = compute_hash(b"b");
    let ab = combine_hashes(&a, &b);
    let ba = combine_hashes(&b, &a);
    assert_ne!(ab, ba);
}

#[test]
fn test_verify_hash_chain_empty() {
    let result = verify_hash_chain(&[]);
    assert_eq!(result, [0u8; 32]);
}

#[test]
fn test_bundle_hash() {
    let root = [1u8; 32];
    let hash = compute_bundle_hash(&root, 100, 500);
    assert_ne!(hash, [0u8; 32]);
}

#[test]
fn test_account_overlap_detected() {
    let shared = [42u8; 32];
    let set_a = vec![[1u8; 32], shared];
    let set_b = vec![shared, [2u8; 32]];
    assert!(check_account_overlap(&set_a, &set_b));
}

#[test]
fn test_no_account_overlap() {
    let set_a = vec![[1u8; 32], [2u8; 32]];
    let set_b = vec![[3u8; 32], [4u8; 32]];
    assert!(!check_account_overlap(&set_a, &set_b));
}

#[test]
fn compute_hash_is_sha256() {
    let expected: [u8; 32] = [
        0xba, 0x78, 0x16, 0xbf, 0x8f, 0x01, 0xcf, 0xea, 0x41, 0x41, 0x40, 0xde, 0x5d, 0xae, 0x22,
        0x23, 0xb0, 0x03, 0x61, 0xa3, 0x96, 0x17, 0x7a, 0x9c, 0xb4, 0x10, 0xff, 0x61, 0xf2, 0x00,
        0x15, 0xad,
    ];
    assert_eq!(compute_hash(b"abc"), expected);
}

#[test]
fn combine_hashes_hashes_the_concatenation() {
    let a = [1u8; 32];
    let b = [2u8; 32];
    let mut both = a.to_vec();
    both.extend_from_slice(&b);
    assert_eq!(combine_hashes(&a, &b), sha256_of(&both));
}

#[test]
fn hash_chain_folds_from_the_first_hash() {
    let a = [1u8; 32];
    let b = [2u8; 32];
    let c = [3u8; 32];
    assert_eq!(verify_hash_chain(&[a]), a);
    assert_eq!(verify_hash_chain(&[a, b]), combine_hashes(&a, &b));
    assert_eq!(verify_hash_chain(&[a, b, c]), combine_hashes(&combine_hashes(&a, &b), &c));
}

#[test]
fn bundle_hash_covers_root_epoch_and_slot_little_endian() {
    let root = [1u8; 32];
    let mut data = root.to_vec();
    data.extend_from_slice(&100u64.to_le_bytes());
    data.extend_from_slice(&500u64.to_le_bytes());
    assert_eq!(compute_bundle_hash(&root, 100, 500), sha256_of(&data));
    assert_ne!(compute_bundle_hash(&root, 100, 500), compute_bundle_hash(&root, 500, 100));
}

#[test]
fn overlap_with_an_empty_set_is_false() {
    assert!(!check_account_overlap(&[], &[[1u8; 32]]));
    assert!(!check_account_overlap(&[[1u8; 32]], &[]));
}

// ---------------------------------------------------------------------------
// initialize_cpe_state
// ---------------------------------------------------------------------------

#[test]
fn initialize_sets_up_state_and_tracker() {
    let mut ctx = InitializeCpeState {
        cpe_state: CpeState { bundle_count: 5, mono_burned: 3, ..CpeState::default() },
        epoch_tracker: EpochTracker { total_bundles: 11, ..EpochTracker::default() },
        authority: AUTHORITY,
    };
    let event = handle_initialize_cpe_state(&mut ctx, &clock(), 32, 420).unwrap();
    assert_eq!(event.authority, AUTHORITY);
    assert_eq!(event.epoch, 420);
    assert_eq!(event.max_depth, 32);
    assert_eq!(ctx.cpe_state.authority, AUTHORITY);
    assert_eq!(ctx.cpe_state.epoch, 420);
    assert_eq!(ctx.cpe_state.bundle_count, 0);
    assert_eq!(ctx.cpe_state.mono_burned, 0);
    assert_eq!(ctx.cpe_state.merkle_root, [0u8; 32]);
    assert!(!ctx.cpe_state.is_finalized);
    assert_eq!(ctx.cpe_state.last_update_slot, 1234);
    assert_eq!(ctx.epoch_tracker.authority, AUTHORITY);
    assert_eq!(ctx.epoch_tracker.current_epoch, 420);
    assert_eq!(ctx.epoch_tracker.epoch_start_slot, 1234);
    assert_eq!(ctx.epoch_tracker.total_bundles, 11);
}

#[test]
fn initialize_refuses_too_deep_bundles() {
    let mut ctx = InitializeCpeState { authority: AUTHORITY, ..InitializeCpeState::default() };
    let before = ctx;
    let r = handle_initialize_cpe_state(&mut ctx, &clock(), 33, 1);
    assert_eq!(r, Err(MonoGirlError::BundleDepthExceeded));
    assert_eq!(ctx, before);
    let r = initialize_cpe_state(&mut ctx, &clock(), 33, 1);
    assert_eq!(r, Err(InstructionError::Program(MonoGirlError::BundleDepthExceeded)));
}

// ---------------------------------------------------------------------------
// submit_cpe_bundle
// ---------------------------------------------------------------------------

fn submit_ctx() -> SubmitCpeBundle {
    SubmitCpeBundle { cpe_state: state(), cpe_state_key: STATE_KEY, authority: AUTHORITY, ..SubmitCpeBundle::default() }
}

#[test]
fn submit_records_the_bundle() {
    let mut ctx = submit_ctx();
    let data = vec![1u8, 2, 3];
    let root = [5u8; 32];
    let event = handle_submit_cpe_bundle(&mut ctx, &clock(), &data, root).unwrap();
    assert_eq!(event.bundle_hash, compute_hash(&data));
    assert_eq!(event.bundle_count, 1);
    assert_eq!(event.state, STATE_KEY);
    assert_eq!(event.submitter, AUTHORITY);
    assert_eq!(ctx.cpe_bundle.bundle_hash, compute_hash(&data));
    assert_eq!(ctx.cpe_bundle.merkle_root, root);
    assert_eq!(ctx.cpe_bundle.slot, 1234);
    assert_eq!(ctx.cpe_bundle.timestamp, 1_700_000_000);
    assert_eq!(ctx.cpe_bundle.state, STATE_KEY);
    assert_eq!(ctx.cpe_state.bundle_count, 1);
    assert_eq!(ctx.cpe_state.merkle_root, root);
}

#[test]
fn submit_takes_payloads_up_to_the_limit() {
    let mut ctx = submit_ctx();
    let data = vec![0u8; 1024];
    assert!(handle_submit_cpe_bundle(&mut ctx, &clock(), &data, [1u8; 32]).is_ok());
    let before = ctx;
    let data = vec![0u8; 1025];
    let r = handle_submit_cpe_bundle(&mut ctx, &clock(), &data, [1u8; 32]);
    assert_eq!(r, Err(MonoGirlError::BundleDataTooLarge));
    assert_eq!(ctx, before);
}

#[test]
fn submit_refuses_a_zero_root() {
    let mut ctx = submit_ctx();
    let before = ctx;
    let r = handle_submit_cpe_bundle(&mut ctx, &clock(), &vec![1u8], [0u8; 32]);
    assert_eq!(r, Err(MonoGirlError::InvalidMerkleRoot));
    assert_eq!(ctx, before);
}

#[test]
fn submit_checks_the_accounts_first() {
    let mut ctx = submit_ctx();
    ctx.authority = [8u8; 32];
    let r = submit_cpe_bundle(&mut ctx, &clock(), &vec![1u8], [1u8; 32]);
    assert_eq!(r, Err(InstructionError::Constraint(ConstraintError::HasOne)));

    let mut ctx = submit_ctx();
    ctx.cpe_state.is_finalized = true;
    let before = ctx;
    let r = submit_cpe_bundle(&mut ctx, &clock(), &vec![1u8], [1u8; 32]);
    assert_eq!(r, Err(InstructionError::Constraint(ConstraintError::Raw)));
    assert_eq!(ctx, before);

    let mut ctx = submit_ctx();
    let r = submit_cpe_bundle(&mut ctx, &clock(), &vec![1u8], [1u8; 32]);
    assert_eq!(r.unwrap().bundle_count, 1);
}

// ---------------------------------------------------------------------------
// validate_parallel_execution
// ---------------------------------------------------------------------------

#[test]
fn validate_needs_two_hashes() {
    let mut ctx = ValidateParallelExecution { cpe_state: state(), cpe_state_key: STATE_KEY, authority: AUTHORITY };
    let before = ctx;
    let r = handle_validate_parallel_execution(&mut ctx, &clock(), &vec![[1u8; 32]]);
    assert_eq!(r, Err(MonoGirlError::InsufficientTransactions));
    assert_eq!(ctx, before);
}

#[test]
fn validate_hashes_the_concatenated_hashes() {
    let mut ctx = ValidateParallelExecution { cpe_state: state(), cpe_state_key: STATE_KEY, authority: AUTHORITY };
    ctx.cpe_state.total_transactions = 10;
    let hashes = vec![[1u8; 32], [2u8; 32], [3u8; 32]];
    let event = validate_parallel_execution(&mut ctx, &clock(), &hashes).unwrap();
    let mut all = Vec::new();
    for h in &hashes {
        all.extend_from_slice(h);
    }
    assert_eq!(event.validation_hash, sha256_of(&all));
    assert_eq!(event.tx_count, 3);
    assert_eq!(event.state, STATE_KEY);
    assert_eq!(ctx.cpe_state.total_transactions, 13);
    assert_eq!(ctx.cpe_state.last_update_slot, 1234);
}

#[test]
fn validate_refuses_a_stranger() {
    let mut ctx = ValidateParallelExecution { cpe_state: state(), cpe_state_key: STATE_KEY, authority: [1u8; 32] };
    let r = validate_parallel_execution(&mut ctx, &clock(), &vec![[1u8; 32], [2u8; 32]]);
    assert_eq!(r, Err(InstructionError::Constraint(ConstraintError::HasOne)));
}

// ---------------------------------------------------------------------------
// finalize_epoch
// ---------------------------------------------------------------------------

#[test]
fn finalize_adds_to_the_tracker_once() {
    let mut ctx = FinalizeEpoch {
        cpe_state: CpeState { bundle_count: 3, conflict_count: 2, total_transactions: 9, ..state() },
        epoch_tracker: EpochTracker { total_bundles: 10, total_conflicts_resolved: 1, ..EpochTracker::default() },
        authority: AUTHORITY,
    };
    let event = finalize_epoch(&mut ctx, &clock()).unwrap();
    assert_eq!(event.epoch, 420);
    assert_eq!(event.total_bundles, 3);
    assert_eq!(event.total_transactions, 9);
    assert!(ctx.cpe_state.is_finalized);
    assert_eq!(ctx.epoch_tracker.total_bundles, 13);
    assert_eq!(ctx.epoch_tracker.total_conflicts_resolved, 3);

    let before = ctx;
    let r = finalize_epoch(&mut ctx, &clock());
    assert_eq!(r, Err(InstructionError::Program(MonoGirlError::EpochAlreadyFinalized)));
    assert_eq!(ctx, before);
    let r = handle_finalize_epoch(&mut ctx, &clock());
    assert_eq!(r, Err(MonoGirlError::EpochAlreadyFinalized));
}

// ---------------------------------------------------------------------------
// resolve_conflict
// ---------------------------------------------------------------------------

#[test]
fn resolve_records_the_resolution() {
    let mut ctx = ResolveConflict { cpe_state: state(), cpe_state_key: STATE_KEY, authority: AUTHORITY, ..ResolveConflict::default() };
    let event = resolve_conflict(&mut ctx, &clock(), 77, 2).unwrap();
    assert_eq!(event.conflict_id, 77);
    assert_eq!(event.resolution, 2);
    assert_eq!(event.resolver, AUTHORITY);
    assert_eq!(ctx.conflict_record.state, STATE_KEY);
    assert_eq!(ctx.conflict_record.resolved_at, 1_700_000_000);
    assert_eq!(ctx.cpe_state.conflict_count, 1);
}

#[test]
fn resolve_refuses_unknown_resolutions() {
    let mut ctx = ResolveConflict { cpe_state: state(), cpe_state_key: STATE_KEY, authority: AUTHORITY, ..ResolveConflict::default() };
    let before = ctx;
    let r = handle_resolve_conflict(&mut ctx, &clock(), 77, 3);
    assert_eq!(r, Err(MonoGirlError::InvalidResolution));
    assert_eq!(ctx, before);
}

// ---------------------------------------------------------------------------
// burn_mono_fee
// ---------------------------------------------------------------------------

#[test]
fn burn_adds_to_both_totals() {
    let mut ctx = BurnMonoFee {
        cpe_state: CpeState { mono_burned: 4, ..state() },
        cpe_state_key: STATE_KEY,
        epoch_tracker: EpochTracker { total_mono_burned: 10, ..EpochTracker::default() },
        authority: AUTHORITY,
    };
    let event = burn_mono_fee(&mut ctx, 5).unwrap();
    assert_eq!(event.amount, 5);
    assert_eq!(event.total_burned, 9);
    assert_eq!(ctx.cpe_state.mono_burned, 9);
    assert_eq!(ctx.epoch_tracker.total_mono_burned, 15);
    assert_eq!(ctx.epoch_tracker.total_mono_burned - ctx.cpe_state.mono_burned, 6);
}

#[test]
fn burn_refuses_nothing() {
    let mut ctx = BurnMonoFee { cpe_state: state(), cpe_state_key: STATE_KEY, authority: AUTHORITY, ..BurnMonoFee::default() };
    let before = ctx;
    let r = handle_burn_mono_fee(&mut ctx, 0);
    assert_eq!(r, Err(MonoGirlError::InsufficientMonoBurned));
    assert_eq!(ctx, before);
}

#[test]
fn overlap_is_symmetric() {
    let a = vec![[1u8; 32], [5u8; 32]];
    let b = vec![[5u8; 32]];
    let c = vec![[6u8; 32]];
    assert_eq!(check_account_overlap(&a, &b), check_account_overlap(&b, &a));
    assert!(check_account_overlap(&b, &a));
    assert_eq!(check_account_overlap(&a, &c), check_account_overlap(&c, &a));
    assert!(!check_account_overlap(&c, &a));
}
