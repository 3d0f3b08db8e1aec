//! What a shadow run is given.
use vstd::prelude::*;

use crate::governance::ManifestPatch;

verus! {

/// Events to start from: the schema of each and its value.
#[derive(Debug)]
pub struct ShadowHarness {
    pub seed_events: Vec<(String, Vec<u8>)>,
}

/// A patch to be tried, and the digest that it should have.
#[derive(Debug)]
pub struct ShadowConfig {
    pub proposal_id: u64,
    pub patch: ManifestPatch,
    pub patch_hash: String,
    pub harness: Option<ShadowHarness>,
}

} // verus!
