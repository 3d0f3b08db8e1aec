//! Governance from within: proposing, trying, deciding and applying patches.
use std::collections::HashMap;
use vstd::prelude::*;

use crate::air::AirNode;
use crate::error::{is_manifest_error, KernelError};
use crate::governance::{ManifestPatch, Proposal};
use crate::governance_effects::{load_patch_by_hash, patch_loaded, ref_digest, GovApprovalDecision,
    GovPatchInput, GovProposeParams, InputView, PatchCodec};
use crate::hash::{hash_fault, hash_prefix, hash_text, is_hash_text, ContentHash, HashRef};
use crate::shadow::summary::{ModuleEffectAllowlist, PendingWorkflowReceipt, PredictedEffect,
    ShadowSummary, WorkflowInstancePreview};
use crate::store::Store;
use crate::text::{copy_option, join2};
use crate::workspace::copy_hash;

verus! {

/// What the kernel does for governance.
pub trait GovernanceHost {
    fn submit_proposal(&mut self, patch: ManifestPatch, description: Option<String>) -> Result<
        u64,
        KernelError,
    >;

    fn run_shadow(&mut self, proposal_id: u64) -> Result<ShadowSummary, KernelError>;

    fn approve_proposal(&mut self, proposal_id: u64, approver: String) -> Result<(), KernelError>;

    fn reject_proposal(&mut self, proposal_id: u64, approver: String) -> Result<(), KernelError>;

    fn apply_proposal(&mut self, proposal_id: u64) -> Result<(), KernelError>;

    /// The digest of the manifest in force.
    fn manifest_hash(&self) -> ContentHash;

    /// The proposals that were submitted.
    fn proposals(&self) -> &HashMap<u64, Proposal>;
}

#[derive(Debug)]
pub struct GovProposeReceipt {
    pub proposal_id: u64,
    pub patch_hash: HashRef,
    pub manifest_base: Option<HashRef>,
}

#[derive(Debug)]
pub struct GovShadowParams {
    pub proposal_id: u64,
}

#[derive(Debug)]
pub struct GovPredictedEffect {
    pub op: String,
    pub intent_hash: HashRef,
    pub params_json: Option<String>,
}

#[derive(Debug)]
pub struct GovPendingWorkflowReceipt {
    pub instance_id: String,
    pub origin_module_id: String,
    pub origin_instance_key_b64: Option<String>,
    pub intent_hash: HashRef,
    pub effect_op: String,
    pub emitted_at_seq: u64,
}

#[derive(Debug)]
pub struct GovWorkflowInstancePreview {
    pub instance_id: String,
    pub status: String,
    pub last_processed_event_seq: u64,
    pub module_version: Option<String>,
    pub inflight_intents: u64,
}

#[derive(Debug)]
pub struct GovModuleEffectAllowlist {
    pub module: String,
    pub effects_emitted: Vec<String>,
}

/// The report of a shadow run.
#[derive(Debug)]
pub struct GovShadowReceipt {
    pub proposal_id: u64,
    pub manifest_hash: HashRef,
    pub predicted_effects: Vec<GovPredictedEffect>,
    pub pending_workflow_receipts: Vec<GovPendingWorkflowReceipt>,
    pub workflow_instances: Vec<GovWorkflowInstancePreview>,
    pub module_effect_allowlists: Vec<GovModuleEffectAllowlist>,
}

#[derive(Debug)]
pub struct GovApproveParams {
    pub proposal_id: u64,
    pub decision: GovApprovalDecision,
    pub approver: String,
    pub reason: Option<String>,
}

#[derive(Debug)]
pub struct GovApproveReceipt {
    pub proposal_id: u64,
    pub decision: GovApprovalDecision,
    pub patch_hash: HashRef,
    pub approver: String,
    pub reason: Option<String>,
}

#[derive(Debug)]
pub struct GovApplyParams {
    pub proposal_id: u64,
}

#[derive(Debug)]
pub struct GovApplyReceipt {
    pub proposal_id: u64,
    pub manifest_hash_new: HashRef,
    pub patch_hash: HashRef,
}

/// The digest that hexadecimal digits stand for, as a text.
pub open spec fn hex_ref(hex: Seq<char>) -> Result<Seq<char>, Seq<char>> {
    let text = hash_prefix() + hex;
    if is_hash_text(text) {
        Ok(text)
    } else {
        Err("invalid hash: "@ + hash_fault(text))
    }
}

fn hash_ref_from_hex(hex: &str) -> (r: Result<HashRef, KernelError>)
    ensures
        match (r, hex_ref(hex@)) {
            (Ok(h), Ok(t)) => h@ == t,
            (Err(e), Err(t)) => is_manifest_error(e, t),
            _ => false,
        },
{
    proof {
        reveal_strlit("sha256:");
        assert("sha256:"@ =~= hash_prefix());
    }
    match HashRef::new(join2("sha256:", hex)) {
        Ok(h) => Ok(h),
        Err(e) => {
            let why = e.message();
            Err(KernelError::Manifest(join2("invalid hash: ", why.as_str())))
        },
    }
}

/// The digest that a text names, or the text of the error; `what` says whose digest it is.
pub open spec fn text_ref(text: Seq<char>, what: Seq<char>) -> Result<Seq<char>, Seq<char>> {
    if is_hash_text(text) {
        Ok(text)
    } else {
        Err(what + hash_fault(text))
    }
}

fn hash_ref_from_text(text: &str, what: &str) -> (r: Result<HashRef, KernelError>)
    ensures
        match (r, text_ref(text@, what@)) {
            (Ok(h), Ok(t)) => h@ == t,
            (Err(e), Err(t)) => is_manifest_error(e, t),
            _ => false,
        },
{
    match HashRef::new(text.to_owned()) {
        Ok(h) => Ok(h),
        Err(e) => {
            let why = e.message();
            Err(KernelError::Manifest(join2(what, why.as_str())))
        },
    }
}

/// The digest of the patch that is proposed: the patch must be given by its digest.
pub fn propose_patch_hash(params: &GovProposeParams) -> (r: Result<HashRef, KernelError>)
    ensures
        match (r, params.patch@) {
            (Ok(h), InputView::PatchHash(t)) => h@ == t,
            (Err(e), InputView::PatchHash(_)) => false,
            (Ok(_), _) => false,
            (Err(e), _) => is_manifest_error(
                e,
                "gov.propose params must use patch hash input after normalization"@,
            ),
        },
{
    match &params.patch {
        GovPatchInput::PatchHash(h) => Ok(h.clone()),
        _ => Err(
            KernelError::Manifest(
                "gov.propose params must use patch hash input after normalization".to_owned(),
            ),
        ),
    }
}

/// Whether a result tells what the kernel says of a proposal that is handed to it.
pub open spec fn submitted<H: GovernanceHost>(
    r: Result<GovProposeReceipt, KernelError>,
    host: H,
    patch: ManifestPatch,
    params: GovProposeParams,
    hash: Seq<char>,
) -> bool {
    exists|h: &mut H, told: Result<u64, KernelError>|
        *h == host && #[trigger] call_ensures(
            H::submit_proposal,
            (h, patch, params.description),
            told,
        ) && match told {
            Ok(id) => r is Ok && r->Ok_0.proposal_id == id && r->Ok_0.patch_hash@ == hash
                && r->Ok_0.manifest_base == params.manifest_base,
            Err(e) => r == Err::<GovProposeReceipt, KernelError>(e),
        }
}

/// Whether a result tells what became of a patch in the store that is proposed: the patch is
/// loaded, and handed to the kernel.
pub open spec fn proposed<S: Store<AirNode>, C: PatchCodec, H: GovernanceHost>(
    r: Result<GovProposeReceipt, KernelError>,
    store: S,
    codec: &C,
    host: H,
    after: H,
    params: GovProposeParams,
    hash: HashRef,
) -> bool {
    exists|loaded: Result<ManifestPatch, KernelError>| #[trigger]
        patch_loaded(loaded, store, codec, ref_digest(hash)) && match loaded {
            Err(e) => r == Err::<GovProposeReceipt, KernelError>(e) && after == host,
            Ok(patch) => submitted(r, host, patch, params, hash@),
        }
}

/// What proposing a patch comes to.
pub open spec fn propose_told<S: Store<AirNode>, C: PatchCodec, H: GovernanceHost>(
    r: Result<GovProposeReceipt, KernelError>,
    store: S,
    codec: &C,
    host: H,
    after: H,
    params: GovProposeParams,
) -> bool {
    match params.patch {
        GovPatchInput::PatchHash(hash) => proposed(r, store, codec, host, after, params, hash),
        _ => r is Err && is_manifest_error(
            r->Err_0,
            "gov.propose params must use patch hash input after normalization"@,
        ) && after == host,
    }
}

/// Proposes a patch that is in the store. The host changes by taking the proposal, once, and by
/// nothing else.
pub fn handle_governance_propose<S: Store<AirNode>, C: PatchCodec, H: GovernanceHost>(
    store: &S,
    codec: &C,
    host: &mut H,
    params: &GovProposeParams,
) -> (r: Result<GovProposeReceipt, KernelError>)
    ensures
        propose_told(r, *store, codec, *old(host), *final(host), *params),
        r is Ok || *final(host) != *old(host) ==> exists|
            h: &mut H,
            patch: ManifestPatch,
            told: Result<u64, KernelError>,
        |
            *h == *old(host) && *final(h) == *final(host) && (#[trigger] call_ensures(
                H::submit_proposal,
                (h, patch, params.description),
                told,
            )) && patch_loaded(
                Ok(patch),
                *store,
                codec,
                ref_digest(params.patch->PatchHash_0),
            ) && (r is Ok <==> told is Ok) && (told matches Ok(id) ==> r->Ok_0.proposal_id == id),
{
    let ghost start = *host;
    let patch_hash = match propose_patch_hash(params) {
        Ok(h) => h,
        Err(e) => {
            return Err(e);
        },
    };
    let loaded = load_patch_by_hash(store, codec, &patch_hash);
    let ghost found = loaded;
    proof {
        let named = params.patch->PatchHash_0;
        assert(named@ == patch_hash@);
        assert(patch_loaded(found, *store, codec, ref_digest(named)));
    }
    let patch = match loaded {
        Ok(p) => p,
        Err(e) => {
            return Err(e);
        },
    };
    let ghost whole = patch;
    let told = host.submit_proposal(patch, copy_option(&params.description));
    let ghost answer = told;
    let r = match told {
        Ok(proposal_id) => Ok(
            GovProposeReceipt {
                proposal_id,
                patch_hash,
                manifest_base: copy_hash(&params.manifest_base),
            },
        ),
        Err(e) => Err(e),
    };
    assert(submitted(r, start, whole, *params, patch_hash@));
    r
}

/// Whether an effect is reported as it was foretold.
pub open spec fn is_gov_predicted(g: GovPredictedEffect, p: PredictedEffect) -> bool {
    &&& g.op == p.op
    &&& hex_ref(p.intent_hash@) == Ok::<Seq<char>, Seq<char>>(g.intent_hash@)
    &&& g.params_json == p.params_json
}

pub open spec fn is_gov_pending(g: GovPendingWorkflowReceipt, p: PendingWorkflowReceipt) -> bool {
    &&& g.instance_id == p.instance_id
    &&& g.origin_module_id == p.origin_module_id
    &&& g.origin_instance_key_b64 == p.origin_instance_key_b64
    &&& hex_ref(p.intent_hash@) == Ok::<Seq<char>, Seq<char>>(g.intent_hash@)
    &&& g.effect_op == p.effect_op
    &&& g.emitted_at_seq == p.emitted_at_seq
}

pub open spec fn is_gov_instance(g: GovWorkflowInstancePreview, p: WorkflowInstancePreview) -> bool {
    &&& g.instance_id == p.instance_id
    &&& g.status == p.status
    &&& g.last_processed_event_seq == p.last_processed_event_seq
    &&& g.module_version == p.module_version
    &&& g.inflight_intents == p.inflight_intents
}

pub open spec fn is_gov_allowlist(g: GovModuleEffectAllowlist, p: ModuleEffectAllowlist) -> bool {
    g.module == p.module && g.effects_emitted@ == p.effects_emitted@
}

/// Whether a receipt reports a summary.
pub open spec fn is_gov_report(r: GovShadowReceipt, proposal_id: u64, s: ShadowSummary) -> bool {
    &&& r.proposal_id == proposal_id
    &&& r.manifest_hash@ == s.manifest_hash@
    &&& r.predicted_effects@.len() == s.predicted_effects@.len()
    &&& forall|i: int|
        0 <= i < s.predicted_effects@.len() ==> is_gov_predicted(
            #[trigger] r.predicted_effects@[i],
            s.predicted_effects@[i],
        )
    &&& r.pending_workflow_receipts@.len() == s.pending_workflow_receipts@.len()
    &&& forall|i: int|
        0 <= i < s.pending_workflow_receipts@.len() ==> is_gov_pending(
            #[trigger] r.pending_workflow_receipts@[i],
            s.pending_workflow_receipts@[i],
        )
    &&& r.workflow_instances@.len() == s.workflow_instances@.len()
    &&& forall|i: int|
        0 <= i < s.workflow_instances@.len() ==> is_gov_instance(
            #[trigger] r.workflow_instances@[i],
            s.workflow_instances@[i],
        )
    &&& r.module_effect_allowlists@.len() == s.module_effect_allowlists@.len()
    &&& forall|i: int|
        0 <= i < s.module_effect_allowlists@.len() ==> is_gov_allowlist(
            #[trigger] r.module_effect_allowlists@[i],
            s.module_effect_allowlists@[i],
        )
}

/// Why one of the first `n` digests of effects is none.
pub open spec fn predicted_fault(s: Seq<PredictedEffect>, n: nat) -> Option<Seq<char>>
    decreases n,
{
    if n == 0 || n > s.len() {
        None
    } else {
        match predicted_fault(s, (n - 1) as nat) {
            Some(t) => Some(t),
            None => match hex_ref(s[n - 1].intent_hash@) {
                Err(t) => Some(t),
                Ok(_) => None,
            },
        }
    }
}

pub open spec fn pending_fault(s: Seq<PendingWorkflowReceipt>, n: nat) -> Option<Seq<char>>
    decreases n,
{
    if n == 0 || n > s.len() {
        None
    } else {
        match pending_fault(s, (n - 1) as nat) {
            Some(t) => Some(t),
            None => match hex_ref(s[n - 1].intent_hash@) {
                Err(t) => Some(t),
                Ok(_) => None,
            },
        }
    }
}

proof fn lemma_predicted_stands(s: Seq<PredictedEffect>, n: nat, k: nat)
    requires
        n <= k <= s.len(),
        predicted_fault(s, n) is Some,
    ensures
        predicted_fault(s, k) == predicted_fault(s, n),
    decreases k,
{
    if n < k {
        lemma_predicted_stands(s, n, (k - 1) as nat);
    }
}

proof fn lemma_pending_stands(s: Seq<PendingWorkflowReceipt>, n: nat, k: nat)
    requires
        n <= k <= s.len(),
        pending_fault(s, n) is Some,
    ensures
        pending_fault(s, k) == pending_fault(s, n),
    decreases k,
{
    if n < k {
        lemma_pending_stands(s, n, (k - 1) as nat);
    }
}

/// Why a summary cannot be reported: a digest in it is none. That of the manifest counts first,
/// then those of the effects, then those of the receipts.
pub open spec fn report_fault(s: ShadowSummary) -> Option<Seq<char>> {
    if !is_hash_text(s.manifest_hash@) {
        Some("invalid manifest hash: "@ + hash_fault(s.manifest_hash@))
    } else {
        match predicted_fault(s.predicted_effects@, s.predicted_effects@.len()) {
            Some(t) => Some(t),
            None => pending_fault(
                s.pending_workflow_receipts@,
                s.pending_workflow_receipts@.len(),
            ),
        }
    }
}

fn gov_predicted(items: &Vec<PredictedEffect>) -> (r: Result<
    Vec<GovPredictedEffect>,
    KernelError,
>)
    ensures
        match (r, predicted_fault(items@, items@.len())) {
            (Ok(v), None) => v@.len() == items@.len() && forall|i: int|
                0 <= i < items@.len() ==> is_gov_predicted(#[trigger] v@[i], items@[i]),
            (Err(e), Some(t)) => is_manifest_error(e, t),
            _ => false,
        },
{
    let mut out: Vec<GovPredictedEffect> = Vec::new();
    let mut i: usize = 0;
    while i < items.len()
        invariant
            i <= items@.len(),
            out@.len() == i,
            predicted_fault(items@, i as nat) is None,
            forall|k: int| 0 <= k < i ==> is_gov_predicted(#[trigger] out@[k], items@[k]),
        decreases items@.len() - i,
    {
        let x = &items[i];
        match hash_ref_from_hex(x.intent_hash.as_str()) {
            Ok(intent_hash) => {
                out.push(
                    GovPredictedEffect {
                        op: x.op.clone(),
                        intent_hash,
                        params_json: copy_option(&x.params_json),
                    },
                );
            },
            Err(e) => {
                proof {
                    lemma_predicted_stands(items@, (i + 1) as nat, items@.len());
                }
                return Err(e);
            },
        }
        i += 1;
    }
    Ok(out)
}

fn gov_pending(items: &Vec<PendingWorkflowReceipt>) -> (r: Result<
    Vec<GovPendingWorkflowReceipt>,
    KernelError,
>)
    ensures
        match (r, pending_fault(items@, items@.len())) {
            (Ok(v), None) => v@.len() == items@.len() && forall|i: int|
                0 <= i < items@.len() ==> is_gov_pending(#[trigger] v@[i], items@[i]),
            (Err(e), Some(t)) => is_manifest_error(e, t),
            _ => false,
        },
{
    let mut out: Vec<GovPendingWorkflowReceipt> = Vec::new();
    let mut i: usize = 0;
    while i < items.len()
        invariant
            i <= items@.len(),
            out@.len() == i,
            pending_fault(items@, i as nat) is None,
            forall|k: int| 0 <= k < i ==> is_gov_pending(#[trigger] out@[k], items@[k]),
        decreases items@.len() - i,
    {
        let x = &items[i];
        match hash_ref_from_hex(x.intent_hash.as_str()) {
            Ok(intent_hash) => {
                out.push(
                    GovPendingWorkflowReceipt {
                        instance_id: x.instance_id.clone(),
                        origin_module_id: x.origin_module_id.clone(),
                        origin_instance_key_b64: copy_option(&x.origin_instance_key_b64),
                        intent_hash,
                        effect_op: x.effect_op.clone(),
                        emitted_at_seq: x.emitted_at_seq,
                    },
                );
            },
            Err(e) => {
                proof {
                    lemma_pending_stands(items@, (i + 1) as nat, items@.len());
                }
                return Err(e);
            },
        }
        i += 1;
    }
    Ok(out)
}

fn gov_instances(items: &Vec<WorkflowInstancePreview>) -> (r: Vec<GovWorkflowInstancePreview>)
    ensures
        r@.len() == items@.len(),
        forall|i: int| 0 <= i < items@.len() ==> is_gov_instance(#[trigger] r@[i], items@[i]),
{
    let mut out: Vec<GovWorkflowInstancePreview> = Vec::new();
    let mut i: usize = 0;
    while i < items.len()
        invariant
            i <= items@.len(),
            out@.len() == i,
            forall|k: int| 0 <= k < i ==> is_gov_instance(#[trigger] out@[k], items@[k]),
        decreases items@.len() - i,
    {
        let x = &items[i];
        out.push(
            GovWorkflowInstancePreview {
                instance_id: x.instance_id.clone(),
                status: x.status.clone(),
                last_processed_event_seq: x.last_processed_event_seq,
                module_version: copy_option(&x.module_version),
                inflight_intents: x.inflight_intents as u64,
            },
        );
        i += 1;
    }
    out
}

fn gov_allowlists(items: &Vec<ModuleEffectAllowlist>) -> (r: Vec<GovModuleEffectAllowlist>)
    ensures
        r@.len() == items@.len(),
        forall|i: int| 0 <= i < items@.len() ==> is_gov_allowlist(#[trigger] r@[i], items@[i]),
{
    let mut out: Vec<GovModuleEffectAllowlist> = Vec::new();
    let mut i: usize = 0;
    while i < items.len()
        invariant
            i <= items@.len(),
            out@.len() == i,
            forall|k: int| 0 <= k < i ==> is_gov_allowlist(#[trigger] out@[k], items@[k]),
        decreases items@.len() - i,
    {
        let x = &items[i];
        out.push(
            GovModuleEffectAllowlist {
                module: x.module.clone(),
                effects_emitted: crate::text::copy_texts(&x.effects_emitted),
            },
        );
        i += 1;
    }
    out
}

/// The report of a shadow run.
pub fn shadow_report(proposal_id: u64, summary: &ShadowSummary) -> (r: Result<
    GovShadowReceipt,
    KernelError,
>)
    ensures
        match (r, report_fault(*summary)) {
            (Ok(x), None) => is_gov_report(x, proposal_id, *summary),
            (Err(e), Some(t)) => is_manifest_error(e, t),
            _ => false,
        },
{
    let manifest_hash = match hash_ref_from_text(
        summary.manifest_hash.as_str(),
        "invalid manifest hash: ",
    ) {
        Ok(h) => h,
        Err(e) => {
            return Err(e);
        },
    };
    let predicted_effects = match gov_predicted(&summary.predicted_effects) {
        Ok(v) => v,
        Err(e) => {
            return Err(e);
        },
    };
    let pending_workflow_receipts = match gov_pending(&summary.pending_workflow_receipts) {
        Ok(v) => v,
        Err(e) => {
            return Err(e);
        },
    };
    Ok(
        GovShadowReceipt {
            proposal_id,
            manifest_hash,
            predicted_effects,
            pending_workflow_receipts,
            workflow_instances: gov_instances(&summary.workflow_instances),
            module_effect_allowlists: gov_allowlists(&summary.module_effect_allowlists),
        },
    )
}

/// Whether a result is what a shadow run comes to: its report, why it has none, or the error of the
/// run.
pub open spec fn shadow_answered(
    r: Result<GovShadowReceipt, KernelError>,
    proposal_id: u64,
    told: Result<ShadowSummary, KernelError>,
) -> bool {
    match told {
        Err(f) => r matches Err(e) && e == f,
        Ok(s) => match (r, report_fault(s)) {
            (Ok(x), None) => is_gov_report(x, proposal_id, s),
            (Err(e), Some(t)) => is_manifest_error(e, t),
            _ => false,
        },
    }
}

/// What a shadow run comes to.
pub open spec fn shadow_told<H: GovernanceHost>(
    r: Result<GovShadowReceipt, KernelError>,
    host: H,
    params: GovShadowParams,
) -> bool {
    exists|h: &mut H, told: Result<ShadowSummary, KernelError>|
        *h == host && #[trigger] call_ensures(H::run_shadow, (h, params.proposal_id), told)
            && shadow_answered(r, params.proposal_id, told)
}

/// Tries a proposal: the host is asked to run it, once, and the result is what the run comes to.
pub fn handle_governance_shadow<H: GovernanceHost>(host: &mut H, params: &GovShadowParams) -> (r: Result<
    GovShadowReceipt,
    KernelError,
>)
    ensures
        shadow_told(r, *old(host), *params),
        exists|h: &mut H, told: Result<ShadowSummary, KernelError>|
            *h == *old(host) && *final(h) == *final(host) && (#[trigger] call_ensures(
                H::run_shadow,
                (h, params.proposal_id),
                told,
            )) && shadow_answered(r, params.proposal_id, told),
{
    let told = host.run_shadow(params.proposal_id);
    let ghost answer = told;
    let r = match told {
        Err(e) => Err(e),
        Ok(summary) => shadow_report(params.proposal_id, &summary),
    };
    assert(shadow_answered(r, params.proposal_id, answer));
    r
}

/// The digest of the patch of a proposal, or why there is none.
pub open spec fn proposal_patch(proposals: Map<u64, Proposal>, id: u64) -> Result<
    Seq<char>,
    KernelErrorView,
> {
    if !proposals.contains_key(id) {
        Err(KernelErrorView::NotFound(id))
    } else {
        match text_ref(proposals[id].patch_hash@, "invalid patch hash: "@) {
            Ok(t) => Ok(t),
            Err(t) => Err(KernelErrorView::Manifest(t)),
        }
    }
}

/// The errors of looking up a proposal.
pub enum KernelErrorView {
    NotFound(u64),
    Manifest(Seq<char>),
}

pub open spec fn is_lookup_error(e: KernelError, v: KernelErrorView) -> bool {
    match v {
        KernelErrorView::NotFound(id) => e matches KernelError::ProposalNotFound(n) && n == id,
        KernelErrorView::Manifest(t) => is_manifest_error(e, t),
    }
}

/// The digest of the patch of a proposal.
pub fn proposal_patch_hash(proposals: &HashMap<u64, Proposal>, id: u64) -> (r: Result<
    HashRef,
    KernelError,
>)
    ensures
        match (r, proposal_patch(proposals@, id)) {
            (Ok(h), Ok(t)) => h@ == t,
            (Err(e), Err(v)) => is_lookup_error(e, v),
            _ => false,
        },
{
    broadcast use vstd::std_specs::hash::group_hash_axioms;

    match proposals.get(&id) {
        None => Err(KernelError::ProposalNotFound(id)),
        Some(p) => hash_ref_from_text(p.patch_hash.as_str(), "invalid patch hash: "),
    }
}

/// Whether the kernel says so of a proposal that is approved or rejected.
pub open spec fn decided<H: GovernanceHost>(
    host: H,
    params: GovApproveParams,
    told: Result<(), KernelError>,
) -> bool {
    match params.decision {
        GovApprovalDecision::Approve => exists|h: &mut H|
            *h == host && #[trigger] call_ensures(
                H::approve_proposal,
                (h, params.proposal_id, params.approver),
                told,
            ),
        GovApprovalDecision::Reject => exists|h: &mut H|
            *h == host && #[trigger] call_ensures(
                H::reject_proposal,
                (h, params.proposal_id, params.approver),
                told,
            ),
    }
}

/// Whether a result tells what the kernel says of a decision on the patch with a digest.
pub open spec fn approved<H: GovernanceHost>(
    r: Result<GovApproveReceipt, KernelError>,
    host: H,
    params: GovApproveParams,
    hash: Seq<char>,
) -> bool {
    exists|told: Result<(), KernelError>| #[trigger]
        decided(host, params, told) && match told {
            Err(e) => r == Err::<GovApproveReceipt, KernelError>(e),
            Ok(_) => {
                &&& r is Ok
                &&& r->Ok_0.proposal_id == params.proposal_id
                &&& r->Ok_0.decision == params.decision
                &&& r->Ok_0.patch_hash@ == hash
                &&& r->Ok_0.approver == params.approver
                &&& r->Ok_0.reason == params.reason
            },
        }
}

/// What deciding on a proposal comes to: one that was not submitted is refused.
pub open spec fn approve_told<H: GovernanceHost>(
    r: Result<GovApproveReceipt, KernelError>,
    host: H,
    after: H,
    params: GovApproveParams,
) -> bool {
    exists|m: &HashMap<u64, Proposal>| #[trigger]
        call_ensures(H::proposals, (&host,), m) && match proposal_patch(m@, params.proposal_id) {
            Err(v) => r is Err && is_lookup_error(r->Err_0, v) && after == host,
            Ok(t) => approved(r, host, params, t),
        }
}

/// Approves or rejects a proposal. The host changes by the one decision, and by nothing else.
pub fn handle_governance_approve<H: GovernanceHost>(
    host: &mut H,
    params: &GovApproveParams,
) -> (r: Result<GovApproveReceipt, KernelError>)
    ensures
        approve_told(r, *old(host), *final(host), *params),
        r is Ok || *final(host) != *old(host) ==> match params.decision {
            GovApprovalDecision::Approve => exists|h: &mut H, told: Result<(), KernelError>|
                *h == *old(host) && *final(h) == *final(host) && (#[trigger] call_ensures(
                    H::approve_proposal,
                    (h, params.proposal_id, params.approver),
                    told,
                )) && (r is Ok <==> told is Ok),
            GovApprovalDecision::Reject => exists|h: &mut H, told: Result<(), KernelError>|
                *h == *old(host) && *final(h) == *final(host) && (#[trigger] call_ensures(
                    H::reject_proposal,
                    (h, params.proposal_id, params.approver),
                    told,
                )) && (r is Ok <==> told is Ok),
        },
{
    let ghost start = *host;
    let known = host.proposals();
    assert(call_ensures(H::proposals, (&start,), known));
    let patch_hash = match proposal_patch_hash(known, params.proposal_id) {
        Ok(h) => h,
        Err(e) => {
            return Err(e);
        },
    };
    let ghost digest = patch_hash@;
    let done = match params.decision {
        GovApprovalDecision::Approve => host.approve_proposal(
            params.proposal_id,
            params.approver.clone(),
        ),
        GovApprovalDecision::Reject => host.reject_proposal(
            params.proposal_id,
            params.approver.clone(),
        ),
    };
    let ghost told = done;
    assert(decided(start, *params, told));
    let r = match done {
        Err(e) => Err(e),
        Ok(_) => Ok(
            GovApproveReceipt {
                proposal_id: params.proposal_id,
                decision: params.decision,
                patch_hash,
                approver: params.approver.clone(),
                reason: copy_option(&params.reason),
            },
        ),
    };
    assert(approved(r, start, *params, digest));
    r
}

/// Whether a receipt tells of a proposal that was applied: with the digest of its patch, and the
/// one that the kernel then gives of the manifest in force.
pub open spec fn applied_receipt<H: GovernanceHost>(
    x: GovApplyReceipt,
    host: H,
    params: GovApplyParams,
    hash: Seq<char>,
) -> bool {
    &&& x.proposal_id == params.proposal_id
    &&& x.patch_hash@ == hash
    &&& exists|h: ContentHash| #[trigger]
        call_ensures(H::manifest_hash, (&host,), h) && x.manifest_hash_new@ == hash_text(h@)
}

/// What the kernel says of a proposal that is applied comes to.
pub open spec fn applied<H: GovernanceHost>(
    r: Result<GovApplyReceipt, KernelError>,
    host: H,
    after: H,
    params: GovApplyParams,
    hash: Seq<char>,
) -> bool {
    exists|h: &mut H, told: Result<(), KernelError>|
        *h == host && #[trigger] call_ensures(H::apply_proposal, (h, params.proposal_id), told)
            && match told {
            Err(e) => r == Err::<GovApplyReceipt, KernelError>(e),
            Ok(_) => r is Ok && applied_receipt(r->Ok_0, after, params, hash),
        }
}

/// What applying a proposal comes to: one that was not submitted is refused.
pub open spec fn apply_told<H: GovernanceHost>(
    r: Result<GovApplyReceipt, KernelError>,
    host: H,
    after: H,
    params: GovApplyParams,
) -> bool {
    exists|m: &HashMap<u64, Proposal>| #[trigger]
        call_ensures(H::proposals, (&host,), m) && match proposal_patch(m@, params.proposal_id) {
            Err(v) => r is Err && is_lookup_error(r->Err_0, v) && after == host,
            Ok(t) => applied(r, host, after, params, t),
        }
}

/// Applies a proposal. The host changes by applying it, once, and by nothing else; the digest in
/// the receipt is the one that the host has afterwards.
pub fn handle_governance_apply<H: GovernanceHost>(
    host: &mut H,
    params: &GovApplyParams,
) -> (r: Result<GovApplyReceipt, KernelError>)
    ensures
        apply_told(r, *old(host), *final(host), *params),
        r is Ok || *final(host) != *old(host) ==> exists|
            h: &mut H,
            told: Result<(), KernelError>,
        |
            *h == *old(host) && *final(h) == *final(host) && (#[trigger] call_ensures(
                H::apply_proposal,
                (h, params.proposal_id),
                told,
            )) && (r is Ok <==> told is Ok),
{
    let ghost start = *host;
    let known = host.proposals();
    assert(call_ensures(H::proposals, (&start,), known));
    let patch_hash = match proposal_patch_hash(known, params.proposal_id) {
        Ok(h) => h,
        Err(e) => {
            return Err(e);
        },
    };
    let ghost digest = patch_hash@;
    let told = host.apply_proposal(params.proposal_id);
    let ghost answer = told;
    let r = match told {
        Err(e) => Err(e),
        Ok(_) => {
            let hash = host.manifest_hash();
            let manifest_hash_new = HashRef::of_hash(&hash);
            let x = GovApplyReceipt {
                proposal_id: params.proposal_id,
                manifest_hash_new,
                patch_hash,
            };
            assert(call_ensures(H::manifest_hash, (&*host,), hash));
            assert(applied_receipt(x, *host, *params, x.patch_hash@));
            Ok(x)
        },
    };
    assert(applied(r, start, *host, *params, digest));
    r
}

} // verus!
