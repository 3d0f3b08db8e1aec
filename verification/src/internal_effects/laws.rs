//! What the answers of the kernel to its own effects say.
use std::collections::HashMap;
use vstd::prelude::*;

use crate::cbor::{cbor_printed, CborTree};
use crate::effects::EffectIntent;
use crate::error::KernelError;
use crate::governance::{ManifestPatch, Proposal};
use crate::governance_effects::{patch_loaded, ref_digest, GovPatchInput, GovProposeParams,
    PatchCodec};
use crate::air::AirNode;
use crate::hash::{hash_prefix, hash_text, is_hash_text, ContentHash};
use crate::query::{Consistency, ReadMeta, StateRead, StateReader};
use crate::receipts::{EffectReceipt, ReceiptStatus};
use crate::shadow::summary::{PendingWorkflowReceipt, PredictedEffect, ShadowSummary};
use crate::store::Store;
use crate::text::{parsed_u64, trimmed};

use super::governance::{apply_told, approve_told, pending_fault, predicted_fault, propose_told,
    proposal_patch, report_fault, shadow_answered, GovApplyParams, GovApplyReceipt,
    GovApproveParams, GovApproveReceipt, GovProposeReceipt, GovShadowReceipt, GovernanceHost};
use super::introspect::{cells_answered, manifest_told, state_told, CellSource, ListCellsReceipt,
    ManifestParams, ManifestReceipt, MetaSer, ReducerStateParams, ReducerStateReceipt};
use super::{consistency_of, is_internal_receipt, lowercased};

verus! {

/// The receipt of an effect of the kernel's own names its intent, costs nothing and says whether it
/// went well; a success carries what the handler gave, and a failure its text. Governance signs for
/// its own kinds.
pub proof fn lemma_internal_receipt_answers(
    r: EffectReceipt,
    intent: EffectIntent,
    outcome: Result<Vec<u8>, KernelError>,
)
    requires
        is_internal_receipt(r, intent, outcome),
    ensures
        r.intent_hash == intent.intent_hash,
        r.cost_cents == Some(0u64),
        r.signature@.len() == 64,
        forall|i: int| 0 <= i < 64 ==> r.signature@[i] == 0u8,
        outcome is Ok <==> r.status == ReceiptStatus::Success,
        outcome is Err <==> r.status == ReceiptStatus::Error,
        outcome matches Ok(payload) ==> r.payload_cbor == payload,
        outcome matches Err(e) ==> cbor_printed(CborTree::Text(e.text())) == Ok::<
            Seq<u8>,
            Seq<char>,
        >(r.payload_cbor@),
        intent.kind@.len() >= 11 && intent.kind@.take(11) == "governance."@ ==> r.adapter_id@
            == "kernel.governance"@,
        !(intent.kind@.len() >= 11 && intent.kind@.take(11) == "governance."@) ==> r.adapter_id@
            == "kernel.introspect"@,
{
    reveal_strlit("governance.");
}

/// The head is asked for by its name, and a height by `exact:` or `at_least:` in front of it. Any
/// other text is refused.
pub proof fn lemma_consistency_is_understood(value: Seq<char>, lowered: Seq<char>)
    ensures
        match consistency_of(value, lowered) {
            Ok(Consistency::Head) => lowered == "head"@,
            Ok(Consistency::Exact(n)) => lowered.len() >= 6 && lowered.take(6) == "exact:"@
                && (parsed_u64(lowered.skip(6)) matches Ok(v) && v as u64 == n),
            Ok(Consistency::AtLeast(n)) => lowered.len() >= 9 && lowered.take(9) == "at_least:"@
                && (parsed_u64(lowered.skip(9)) matches Ok(v) && v as u64 == n),
            Err(_) => {
                &&& lowered != "head"@
                &&& lowered.len() >= 6 && lowered.take(6) == "exact:"@ ==> parsed_u64(
                    lowered.skip(6),
                ) is Err
                &&& lowered.len() >= 9 && lowered.take(9) == "at_least:"@ ==> parsed_u64(
                    lowered.skip(9),
                ) is Err
            },
        },
{
    reveal_strlit("head");
    reveal_strlit("exact:");
    reveal_strlit("at_least:");
    if lowered.len() >= 9 && lowered.take(9) == "at_least:"@ && lowered.take(6) == "exact:"@ {
        assert(lowered.take(9)[0] == lowered[0]);
        assert(lowered.take(6)[0] == lowered[0]);
        assert("at_least:"@[0] == 'a' && "exact:"@[0] == 'e');
    }
}

/// Whether what a reader is told of the state is what the state stands on.
pub open spec fn tells_of(m: MetaSer, meta: ReadMeta) -> bool {
    &&& m.journal_height == meta.journal_height
    &&& m.manifest_hash@ == meta.manifest_hash@
    &&& m.snapshot_hash is Some <==> meta.snapshot_hash is Some
    &&& m.snapshot_hash matches Some(b) ==> b@ == meta.snapshot_hash->0@
    &&& m.active_baseline_height == meta.active_baseline_height
    &&& m.active_baseline_receipt_horizon_height == meta.active_baseline_receipt_horizon_height
}

/// A manifest is told only as the reader gave it, with what its state stands on, and it was asked
/// for with the consistency in the params.
pub proof fn lemma_manifest_is_told_as_read<R: StateReader>(
    r: Result<ManifestReceipt, KernelError>,
    reader: &R,
    params: ManifestParams,
)
    requires
        manifest_told(r, reader, params),
    ensures
        r matches Ok(x) ==> exists|c: Consistency, v: StateRead<Vec<u8>>|
            {
                &&& #[trigger] call_ensures(
                    R::get_manifest,
                    (reader, c),
                    Ok::<StateRead<Vec<u8>>, KernelError>(v),
                )
                &&& consistency_of(
                    params.consistency@,
                    lowercased(trimmed(params.consistency@)),
                ) == Ok::<Consistency, Seq<char>>(c)
                &&& x.manifest == v.value
                &&& tells_of(x.meta, v.meta)
            },
        consistency_of(params.consistency@, lowercased(trimmed(params.consistency@))) is Err
            ==> r is Err,
{
    if let Ok(x) = r {
        let c = consistency_of(params.consistency@, lowercased(trimmed(params.consistency@)))->Ok_0;
        let read = choose|read: Result<StateRead<Vec<u8>>, KernelError>| #[trigger]
            call_ensures(R::get_manifest, (reader, c), read)
                && super::introspect::manifest_answered(r, read);
        let v = read->Ok_0;
        assert(call_ensures(
            R::get_manifest,
            (reader, c),
            Ok::<StateRead<Vec<u8>>, KernelError>(v),
        ));
    }
}

/// A state is told only as the reader gave it for the reducer, the key and the consistency in the
/// params, with what it stands on.
pub proof fn lemma_state_is_told_as_read<R: StateReader>(
    r: Result<ReducerStateReceipt, KernelError>,
    reader: &R,
    params: ReducerStateParams,
)
    requires
        state_told(r, reader, params),
    ensures
        r matches Ok(x) ==> exists|module: &str, c: Consistency, v: StateRead<Option<Vec<u8>>>|
            {
                &&& #[trigger] call_ensures(
                    R::get_reducer_state,
                    (reader, module, &params.key, c),
                    Ok::<StateRead<Option<Vec<u8>>>, KernelError>(v),
                )
                &&& module@ == params.reducer@
                &&& consistency_of(
                    params.consistency@,
                    lowercased(trimmed(params.consistency@)),
                ) == Ok::<Consistency, Seq<char>>(c)
                &&& x.state == v.value
                &&& tells_of(x.meta, v.meta)
            },
        consistency_of(params.consistency@, lowercased(trimmed(params.consistency@))) is Err
            ==> r is Err,
{
    if let Ok(x) = r {
        let c = consistency_of(params.consistency@, lowercased(trimmed(params.consistency@)))->Ok_0;
        let (module, read) = choose|
            module: &str,
            read: Result<StateRead<Option<Vec<u8>>>, KernelError>,
        |
            module@ == params.reducer@ && #[trigger] call_ensures(
                R::get_reducer_state,
                (reader, module, &params.key, c),
                read,
            ) && super::introspect::state_answered(r, read);
        let v = read->Ok_0;
        assert(call_ensures(
            R::get_reducer_state,
            (reader, module, &params.key, c),
            Ok::<StateRead<Option<Vec<u8>>>, KernelError>(v),
        ));
    }
}

/// Cells are listed as the kernel gave them for the reducer, in their order, each with its key, the
/// digest and the size of its state and when it was last active.
pub proof fn lemma_cells_are_listed_as_given<K: CellSource>(
    kernel: &K,
    reducer: Seq<char>,
    r: Result<ListCellsReceipt, KernelError>,
)
    requires
        cells_answered(kernel, reducer, r),
    ensures
        r matches Ok(x) ==> exists|name: &str, cells: Vec<crate::cell_index::CellMeta>|
            {
                &&& #[trigger] call_ensures(
                    K::list_cells,
                    (kernel, name),
                    Ok::<Vec<crate::cell_index::CellMeta>, KernelError>(cells),
                )
                &&& name@ == reducer
                &&& x.cells@.len() == cells@.len()
                &&& forall|i: int|
                    0 <= i < cells@.len() ==> {
                        &&& (#[trigger] x.cells@[i]).key == cells@[i].key_bytes
                        &&& x.cells@[i].state_hash@ == hash_text(cells@[i].state_hash@)
                        &&& x.cells@[i].size == cells@[i].size
                        &&& x.cells@[i].last_active_ns == cells@[i].last_active_ns
                    }
                &&& exists|meta: ReadMeta| #[trigger]
                    call_ensures(K::read_meta, (kernel,), meta) && tells_of(x.meta, meta)
            },
{
    if let Ok(x) = r {
        let (name, told) = choose|
            name: &str,
            told: Result<Vec<crate::cell_index::CellMeta>, KernelError>,
        |
            name@ == reducer && #[trigger] call_ensures(K::list_cells, (kernel, name), told)
                && match (r, told) {
                (Ok(x), Ok(cells)) => exists|meta: ReadMeta|
                    call_ensures(K::read_meta, (kernel,), meta)
                        && #[trigger] super::introspect::is_listing(x, cells@, meta),
                (Err(e), Err(f)) => e == f,
                _ => false,
            };
        let cells = told->Ok_0;
        assert(call_ensures(
            K::list_cells,
            (kernel, name),
            Ok::<Vec<crate::cell_index::CellMeta>, KernelError>(cells),
        ));
        let meta = choose|meta: ReadMeta|
            call_ensures(K::read_meta, (kernel,), meta)
                && #[trigger] super::introspect::is_listing(x, cells@, meta);
        assert(tells_of(x.meta, meta));
        assert forall|i: int| 0 <= i < cells@.len() implies {
            &&& (#[trigger] x.cells@[i]).key == cells@[i].key_bytes
            &&& x.cells@[i].state_hash@ == hash_text(cells@[i].state_hash@)
            &&& x.cells@[i].size == cells@[i].size
            &&& x.cells@[i].last_active_ns == cells@[i].last_active_ns
        } by {
            assert(super::introspect::is_cell_entry(x.cells@[i], cells@[i]));
        }
    }
}

/// A patch is proposed only by its digest; the host is handed the very patch that the store holds
/// under it, with the description in the params, and the receipt has the number that the host gave.
pub proof fn lemma_stored_patch_is_proposed<S: Store<AirNode>, C: PatchCodec, H: GovernanceHost>(
    r: Result<GovProposeReceipt, KernelError>,
    store: S,
    codec: &C,
    host: H,
    after: H,
    params: GovProposeParams,
)
    requires
        propose_told(r, store, codec, host, after, params),
    ensures
        !(params.patch is PatchHash) ==> r is Err && after == host,
        r matches Ok(x) ==> exists|h: &mut H, patch: ManifestPatch|
            {
                &&& #[trigger] call_ensures(
                    H::submit_proposal,
                    (h, patch, params.description),
                    Ok::<u64, KernelError>(x.proposal_id),
                )
                &&& *h == host
                &&& patch_loaded(Ok(patch), store, codec, ref_digest(params.patch->PatchHash_0))
                &&& x.patch_hash@ == params.patch->PatchHash_0@
                &&& x.manifest_base == params.manifest_base
            },
{
    if let GovPatchInput::PatchHash(hash) = params.patch {
        if let Ok(x) = r {
            let loaded = choose|loaded: Result<ManifestPatch, KernelError>| #[trigger]
                patch_loaded(loaded, store, codec, ref_digest(hash)) && match loaded {
                    Err(e) => r == Err::<GovProposeReceipt, KernelError>(e) && after == host,
                    Ok(patch) => super::governance::submitted(r, host, patch, params, hash@),
                };
            let patch = loaded->Ok_0;
            let (h, told) = choose|h: &mut H, told: Result<u64, KernelError>|
                *h == host && #[trigger] call_ensures(
                    H::submit_proposal,
                    (h, patch, params.description),
                    told,
                ) && match told {
                    Ok(id) => r is Ok && r->Ok_0.proposal_id == id && r->Ok_0.patch_hash@ == hash@
                        && r->Ok_0.manifest_base == params.manifest_base,
                    Err(e) => r == Err::<GovProposeReceipt, KernelError>(e),
                };
            assert(told == Ok::<u64, KernelError>(x.proposal_id));
            assert(call_ensures(
                H::submit_proposal,
                (h, patch, params.description),
                Ok::<u64, KernelError>(x.proposal_id),
            ));
        }
    }
}

/// The proposals of a host hold one by a number, with a patch whose digest is a text.
pub open spec fn was_submitted(proposals: Map<u64, Proposal>, id: u64, hash: Seq<char>) -> bool {
    proposals.contains_key(id) && proposals[id].patch_hash@ == hash && is_hash_text(hash)
}

/// A decision goes to the host as it was made: an approval approves, a rejection rejects, of the
/// proposal and by the approver in the params. The receipt repeats them, and has the digest of the
/// patch of that proposal. Nothing happens to a proposal that was not submitted.
pub proof fn lemma_decision_is_handed_over<H: GovernanceHost>(
    r: Result<GovApproveReceipt, KernelError>,
    host: H,
    after: H,
    params: GovApproveParams,
)
    requires
        approve_told(r, host, after, params),
    ensures
        exists|m: &HashMap<u64, Proposal>|
            {
                &&& #[trigger] call_ensures(H::proposals, (&host,), m)
                &&& !m@.contains_key(params.proposal_id) ==> after == host && r == Err::<
                    GovApproveReceipt,
                    KernelError,
                >(KernelError::ProposalNotFound(params.proposal_id))
                &&& r matches Ok(x) ==> was_submitted(
                    m@,
                    params.proposal_id,
                    x.patch_hash@,
                )
            },
        r matches Ok(x) ==> {
            &&& x.proposal_id == params.proposal_id
            &&& x.decision == params.decision
            &&& x.approver == params.approver
            &&& x.reason == params.reason
        },
        r is Ok && params.decision is Approve ==> exists|h: &mut H, told: Result<(), KernelError>|
            *h == host && told is Ok && #[trigger] call_ensures(
                H::approve_proposal,
                (h, params.proposal_id, params.approver),
                told,
            ),
        r is Ok && params.decision is Reject ==> exists|h: &mut H, told: Result<(), KernelError>|
            *h == host && told is Ok && #[trigger] call_ensures(
                H::reject_proposal,
                (h, params.proposal_id, params.approver),
                told,
            ),
{
    let m = choose|m: &HashMap<u64, Proposal>| #[trigger]
        call_ensures(H::proposals, (&host,), m) && match proposal_patch(m@, params.proposal_id) {
            Err(v) => r is Err && super::governance::is_lookup_error(r->Err_0, v) && after == host,
            Ok(t) => super::governance::approved(r, host, params, t),
        };
    assert(call_ensures(H::proposals, (&host,), m));
    if let Ok(t) = proposal_patch(m@, params.proposal_id) {
        let told = choose|told: Result<(), KernelError>| #[trigger]
            super::governance::decided(host, params, told) && match told {
                Err(e) => r == Err::<GovApproveReceipt, KernelError>(e),
                Ok(_) => {
                    &&& r is Ok
                    &&& r->Ok_0.proposal_id == params.proposal_id
                    &&& r->Ok_0.decision == params.decision
                    &&& r->Ok_0.patch_hash@ == t
                    &&& r->Ok_0.approver == params.approver
                    &&& r->Ok_0.reason == params.reason
                },
            };
    }
}

/// A proposal that was submitted is applied by its number; the receipt has the digest of its patch
/// and that of the manifest which is then in force. Nothing happens to one that was not submitted.
pub proof fn lemma_submitted_proposal_is_applied<H: GovernanceHost>(
    r: Result<GovApplyReceipt, KernelError>,
    host: H,
    after: H,
    params: GovApplyParams,
)
    requires
        apply_told(r, host, after, params),
    ensures
        exists|m: &HashMap<u64, Proposal>|
            {
                &&& #[trigger] call_ensures(H::proposals, (&host,), m)
                &&& !m@.contains_key(params.proposal_id) ==> after == host && r == Err::<
                    GovApplyReceipt,
                    KernelError,
                >(KernelError::ProposalNotFound(params.proposal_id))
                &&& r matches Ok(x) ==> was_submitted(
                    m@,
                    params.proposal_id,
                    x.patch_hash@,
                )
            },
        r matches Ok(x) ==> {
            &&& x.proposal_id == params.proposal_id
            &&& exists|h: ContentHash| #[trigger]
                call_ensures(H::manifest_hash, (&after,), h) && x.manifest_hash_new@ == hash_text(
                    h@,
                )
            &&& exists|h: &mut H, told: Result<(), KernelError>|
                *h == host && told is Ok && #[trigger] call_ensures(
                    H::apply_proposal,
                    (h, params.proposal_id),
                    told,
                )
        },
{
    let m = choose|m: &HashMap<u64, Proposal>| #[trigger]
        call_ensures(H::proposals, (&host,), m) && match proposal_patch(m@, params.proposal_id) {
            Err(v) => r is Err && super::governance::is_lookup_error(r->Err_0, v) && after == host,
            Ok(t) => super::governance::applied(r, host, after, params, t),
        };
    assert(call_ensures(H::proposals, (&host,), m));
    if let Ok(t) = proposal_patch(m@, params.proposal_id) {
        let (h, told) = choose|h: &mut H, told: Result<(), KernelError>|
            *h == host && #[trigger] call_ensures(H::apply_proposal, (h, params.proposal_id), told)
                && match told {
                Err(e) => r == Err::<GovApplyReceipt, KernelError>(e),
                Ok(_) => r is Ok && super::governance::applied_receipt(
                    r->Ok_0,
                    after,
                    params,
                    t,
                ),
            };
        assert(call_ensures(H::apply_proposal, (h, params.proposal_id), told));
    }
}

proof fn lemma_predicted_are_digests(s: Seq<PredictedEffect>, n: nat)
    requires
        n <= s.len(),
    ensures
        predicted_fault(s, n) is None <==> forall|i: int|
            0 <= i < n ==> is_hash_text("sha256:"@ + (#[trigger] s[i]).intent_hash@),
    decreases n,
{
    reveal_strlit("sha256:");
    assert(hash_prefix() =~= "sha256:"@);
    if n > 0 {
        lemma_predicted_are_digests(s, (n - 1) as nat);
    }
}

proof fn lemma_pending_are_digests(s: Seq<PendingWorkflowReceipt>, n: nat)
    requires
        n <= s.len(),
    ensures
        pending_fault(s, n) is None <==> forall|i: int|
            0 <= i < n ==> is_hash_text("sha256:"@ + (#[trigger] s[i]).intent_hash@),
    decreases n,
{
    reveal_strlit("sha256:");
    assert(hash_prefix() =~= "sha256:"@);
    if n > 0 {
        lemma_pending_are_digests(s, (n - 1) as nat);
    }
}

/// A shadow run that came to a summary is reported if and only if all digests in the summary are
/// digests. The report has everything that the summary has, in order.
pub proof fn lemma_shadow_run_is_reported(
    r: Result<GovShadowReceipt, KernelError>,
    proposal_id: u64,
    s: ShadowSummary,
)
    requires
        shadow_answered(r, proposal_id, Ok(s)),
    ensures
        r is Ok <==> {
            &&& is_hash_text(s.manifest_hash@)
            &&& forall|i: int|
                0 <= i < s.predicted_effects@.len() ==> is_hash_text(
                    "sha256:"@ + (#[trigger] s.predicted_effects@[i]).intent_hash@,
                )
            &&& forall|i: int|
                0 <= i < s.pending_workflow_receipts@.len() ==> is_hash_text(
                    "sha256:"@ + (#[trigger] s.pending_workflow_receipts@[i]).intent_hash@,
                )
        },
        r matches Ok(x) ==> {
            &&& x.proposal_id == proposal_id
            &&& x.manifest_hash@ == s.manifest_hash@
            &&& x.predicted_effects@.len() == s.predicted_effects@.len()
            &&& forall|i: int|
                0 <= i < x.predicted_effects@.len() ==> {
                    let g = #[trigger] x.predicted_effects@[i];
                    let p = s.predicted_effects@[i];
                    &&& g.op == p.op
                    &&& g.intent_hash@ == "sha256:"@ + p.intent_hash@
                    &&& g.params_json == p.params_json
                }
            &&& x.pending_workflow_receipts@.len() == s.pending_workflow_receipts@.len()
            &&& forall|i: int|
                0 <= i < x.pending_workflow_receipts@.len() ==> {
                    let g = #[trigger] x.pending_workflow_receipts@[i];
                    let p = s.pending_workflow_receipts@[i];
                    &&& g.instance_id == p.instance_id
                    &&& g.origin_module_id == p.origin_module_id
                    &&& g.origin_instance_key_b64 == p.origin_instance_key_b64
                    &&& g.intent_hash@ == "sha256:"@ + p.intent_hash@
                    &&& g.effect_op == p.effect_op
                    &&& g.emitted_at_seq == p.emitted_at_seq
                }
            &&& x.workflow_instances@.len() == s.workflow_instances@.len()
            &&& forall|i: int|
                0 <= i < x.workflow_instances@.len() ==> {
                    let g = #[trigger] x.workflow_instances@[i];
                    let p = s.workflow_instances@[i];
                    &&& g.instance_id == p.instance_id
                    &&& g.status == p.status
                    &&& g.last_processed_event_seq == p.last_processed_event_seq
                    &&& g.module_version == p.module_version
                    &&& g.inflight_intents == p.inflight_intents
                }
            &&& x.module_effect_allowlists@.len() == s.module_effect_allowlists@.len()
            &&& forall|i: int|
                0 <= i < x.module_effect_allowlists@.len() ==> {
                    let g = #[trigger] x.module_effect_allowlists@[i];
                    let p = s.module_effect_allowlists@[i];
                    g.module == p.module && g.effects_emitted@ == p.effects_emitted@
                }
        },
{
    reveal_strlit("sha256:");
    assert(hash_prefix() =~= "sha256:"@);
    lemma_predicted_are_digests(s.predicted_effects@, s.predicted_effects@.len());
    lemma_pending_are_digests(
        s.pending_workflow_receipts@,
        s.pending_workflow_receipts@.len(),
    );
    if let Ok(x) = r {
        assert(report_fault(s) is None);
    }
}

} // verus!
