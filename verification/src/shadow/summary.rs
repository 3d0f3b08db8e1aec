//! What a shadow run reports.
use vstd::prelude::*;

use crate::text::{copy_option, copy_texts};

verus! {

/// What a shadow run of a patch came to.
#[derive(Debug, PartialEq, Eq)]
pub struct ShadowSummary {
    pub manifest_hash: String,
    pub predicted_effects: Vec<PredictedEffect>,
    pub pending_workflow_receipts: Vec<PendingWorkflowReceipt>,
    pub workflow_instances: Vec<WorkflowInstancePreview>,
    pub module_effect_allowlists: Vec<ModuleEffectAllowlist>,
}

/// An effect that the shadow run asked for; its params as JSON text, where they have such a form.
#[derive(Debug, PartialEq, Eq)]
pub struct PredictedEffect {
    pub op: String,
    pub intent_hash: String,
    pub params_json: Option<String>,
}

/// A receipt that a workflow still waits for.
#[derive(Debug, PartialEq, Eq)]
pub struct PendingWorkflowReceipt {
    pub instance_id: String,
    pub origin_module_id: String,
    pub origin_instance_key_b64: Option<String>,
    pub intent_hash: String,
    pub effect_op: String,
    pub emitted_at_seq: u64,
}

/// The state of a workflow instance.
#[derive(Debug, PartialEq, Eq)]
pub struct WorkflowInstancePreview {
    pub instance_id: String,
    pub status: String,
    pub last_processed_event_seq: u64,
    pub module_version: Option<String>,
    pub inflight_intents: usize,
}

/// The effects that a module may ask for.
#[derive(Debug, PartialEq, Eq)]
pub struct ModuleEffectAllowlist {
    pub module: String,
    pub effects_emitted: Vec<String>,
}

pub fn copy_predicted(items: &Vec<PredictedEffect>) -> (r: Vec<PredictedEffect>)
    ensures
        r@ == items@,
{
    let mut out: Vec<PredictedEffect> = Vec::new();
    let mut i: usize = 0;
    while i < items.len()
        invariant
            i <= items@.len(),
            out@ == items@.take(i as int),
        decreases items@.len() - i,
    {
        let x = &items[i];
        out.push(
            PredictedEffect {
                op: x.op.clone(),
                intent_hash: x.intent_hash.clone(),
                params_json: copy_option(&x.params_json),
            },
        );
        assert(items@.take(i + 1) =~= items@.take(i as int).push(items@[i as int]));
        i += 1;
    }
    assert(items@.take(i as int) =~= items@);
    out
}

pub fn copy_pending(items: &Vec<PendingWorkflowReceipt>) -> (r: Vec<PendingWorkflowReceipt>)
    ensures
        r@ == items@,
{
    let mut out: Vec<PendingWorkflowReceipt> = Vec::new();
    let mut i: usize = 0;
    while i < items.len()
        invariant
            i <= items@.len(),
            out@ == items@.take(i as int),
        decreases items@.len() - i,
    {
        let x = &items[i];
        out.push(
            PendingWorkflowReceipt {
                instance_id: x.instance_id.clone(),
                origin_module_id: x.origin_module_id.clone(),
                origin_instance_key_b64: copy_option(&x.origin_instance_key_b64),
                intent_hash: x.intent_hash.clone(),
                effect_op: x.effect_op.clone(),
                emitted_at_seq: x.emitted_at_seq,
            },
        );
        assert(items@.take(i + 1) =~= items@.take(i as int).push(items@[i as int]));
        i += 1;
    }
    assert(items@.take(i as int) =~= items@);
    out
}

pub fn copy_instances(items: &Vec<WorkflowInstancePreview>) -> (r: Vec<WorkflowInstancePreview>)
    ensures
        r@ == items@,
{
    let mut out: Vec<WorkflowInstancePreview> = Vec::new();
    let mut i: usize = 0;
    while i < items.len()
        invariant
            i <= items@.len(),
            out@ == items@.take(i as int),
        decreases items@.len() - i,
    {
        let x = &items[i];
        out.push(
            WorkflowInstancePreview {
                instance_id: x.instance_id.clone(),
                status: x.status.clone(),
                last_processed_event_seq: x.last_processed_event_seq,
                module_version: copy_option(&x.module_version),
                inflight_intents: x.inflight_intents,
            },
        );
        assert(items@.take(i + 1) =~= items@.take(i as int).push(items@[i as int]));
        i += 1;
    }
    assert(items@.take(i as int) =~= items@);
    out
}

/// The model of an allow-list.
pub open spec fn allowlist_view(a: ModuleEffectAllowlist) -> (Seq<char>, Seq<String>) {
    (a.module@, a.effects_emitted@)
}

pub open spec fn allowlists_view(items: Seq<ModuleEffectAllowlist>) -> Seq<
    (Seq<char>, Seq<String>),
> {
    Seq::new(items.len(), |i: int| allowlist_view(items[i]))
}

pub fn copy_allowlists(items: &Vec<ModuleEffectAllowlist>) -> (r: Vec<ModuleEffectAllowlist>)
    ensures
        allowlists_view(r@) == allowlists_view(items@),
{
    let mut out: Vec<ModuleEffectAllowlist> = Vec::new();
    let mut i: usize = 0;
    while i < items.len()
        invariant
            i <= items@.len(),
            out@.len() == i,
            forall|k: int|
                0 <= k < i ==> allowlist_view(#[trigger] out@[k]) == allowlist_view(items@[k]),
        decreases items@.len() - i,
    {
        let x = &items[i];
        out.push(
            ModuleEffectAllowlist {
                module: x.module.clone(),
                effects_emitted: copy_texts(&x.effects_emitted),
            },
        );
        i += 1;
    }
    assert(allowlists_view(out@) =~= allowlists_view(items@));
    out
}

} // verus!
