//! Reading the state of the kernel.
use vstd::prelude::*;

use crate::error::KernelError;
use crate::hash::ContentHash;
use crate::journal::JournalSeq;

verus! {

/// How fresh a reader wants the state to be.
#[derive(Clone, Copy, Debug, PartialEq, Eq, Structural)]
pub enum Consistency {
    /// The latest state at hand.
    Head,
    /// The state at exactly this height.
    Exact(JournalSeq),
    /// The newest state at or above this height.
    AtLeast(JournalSeq),
}

/// What a reader is told of the state that it saw.
#[derive(Clone, Copy, Debug, PartialEq, Eq)]
pub struct ReadMeta {
    pub journal_height: JournalSeq,
    pub snapshot_hash: Option<ContentHash>,
    pub manifest_hash: ContentHash,
    pub active_baseline_height: Option<JournalSeq>,
    pub active_baseline_receipt_horizon_height: Option<JournalSeq>,
}

/// An answer, with what it was read from.
#[derive(Clone, Debug, PartialEq, Eq)]
pub struct StateRead<T> {
    pub meta: ReadMeta,
    pub value: T,
}

/// What the kernel lets readers see.
pub trait StateReader {
    /// The state of a reducer, or of one of its cells.
    fn get_reducer_state(
        &self,
        module: &str,
        key: &Option<Vec<u8>>,
        consistency: Consistency,
    ) -> Result<StateRead<Option<Vec<u8>>>, KernelError>;

    /// The manifest, in its canonical encoding.
    fn get_manifest(&self, consistency: Consistency) -> Result<StateRead<Vec<u8>>, KernelError>;

    /// Only what the state was read from.
    fn get_journal_head(&self) -> ReadMeta;
}

} // verus!
