//! Events emitted by the bundle program.
use vstd::prelude::*;

use crate::program::state::Pubkey;

verus! {

#[derive(Debug, Clone, Copy, PartialEq, Eq)]
pub struct CpeStateInitialized {
    pub authority: Pubkey,
    pub epoch: u64,
    pub max_depth: u8,
}

#[derive(Debug, Clone, Copy, PartialEq, Eq)]
pub struct CpeBundleSubmitted {
    pub state: Pubkey,
    pub submitter: Pubkey,
    pub bundle_hash: [u8; 32],
    pub bundle_count: u32,
}

#[derive(Debug, Clone, Copy, PartialEq, Eq)]
pub struct ParallelExecutionValidated {
    pub state: Pubkey,
    pub tx_count: u32,
    pub validation_hash: [u8; 32],
}

#[derive(Debug, Clone, Copy, PartialEq, Eq)]
pub struct EpochFinalized {
    pub epoch: u64,
    pub total_bundles: u32,
    pub total_transactions: u64,
}

#[derive(Debug, Clone, Copy, PartialEq, Eq)]
pub struct ConflictResolved {
    pub state: Pubkey,
    pub conflict_id: u64,
    pub resolution: u8,
    pub resolver: Pubkey,
}

#[derive(Debug, Clone, Copy, PartialEq, Eq)]
pub struct MonoFeeBurned {
    pub state: Pubkey,
    pub amount: u64,
    pub total_burned: u64,
}

} // verus!
