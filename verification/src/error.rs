//! The kernel's errors.
use vstd::prelude::*;

use crate::governance::ProposalState;
use crate::store::StoreError;
use crate::text::{decimal, decimal_text, join2, join3, join4, join5};

verus! {

/// What can go wrong in the kernel.
#[allow(inconsistent_fields)]
#[derive(Debug)]
pub enum KernelError {
    Store(StoreError),
    Wasm(String),
    Manifest(String),
    WorkflowNotFound(String),
    PureNotFound(String),
    WorkflowOutput(String),
    EffectManager(String),
    UnknownReceipt(String),
    ReceiptDecode(String),
    UnsupportedWorkflowReceipt(String),
    UnsupportedEffect(String),
    IdempotencyKeyInvalid(String),
    Journal(String),
    SnapshotUnavailable(String),
    SnapshotDecode(String),
    ProposalNotFound(u64),
    ProposalStateInvalid { proposal_id: u64, state: ProposalState, required: &'static str },
    ProposalAlreadyApplied(u64),
    ManifestApplyBlockedInFlight {
        plan_instances: usize,
        waiting_events: usize,
        pending_plan_receipts: usize,
        pending_workflow_receipts: usize,
        queued_effects: usize,
        workflow_queue_pending: bool,
    },
    ShadowPatchMismatch { expected: String, actual: String },
    SecretResolverMissing,
    SecretResolver(String),
    SecretResolution(String),
    SecretPolicyDenied { alias: String, version: u64, reason: String },
    PlanCapabilityMissing { plan: String, cap: String },
    CapabilityGrantNotFound(String),
    CapabilityTypeMismatch {
        grant: String,
        expected: String,
        found: String,
        effect_kind: String,
    },
    DuplicateCapabilityGrant(String),
    CapabilityDefinitionNotFound(String),
    CapabilityParamInvalid { grant: String, cap: String, reason: String },
    CapabilityEncoding(String),
    CapabilityDenied { cap: String, effect_kind: String, reason: String },
    PolicyDenied { effect_kind: String, origin: String },
    ReducerNotFound(String),
    ManifestValidation(String),
    Query(String),
    Entropy(String),
}

impl KernelError {
    /// The wording of the error.
    pub open spec fn text(self) -> Seq<char> {
        match self {
            KernelError::Store(e) => "store error: "@ + e.text(),
            KernelError::Wasm(m) => "wasm runtime error: "@ + m@,
            KernelError::Manifest(m) => "manifest loader error: "@ + m@,
            KernelError::WorkflowNotFound(m) => "missing workflow '"@ + m@ + "'"@,
            KernelError::PureNotFound(m) => "missing pure module '"@ + m@ + "'"@,
            KernelError::WorkflowOutput(m) => "invalid workflow output: "@ + m@,
            KernelError::EffectManager(m) => "effect manager error: "@ + m@,
            KernelError::UnknownReceipt(m) => "unknown effect receipt for "@ + m@,
            KernelError::ReceiptDecode(m) => "failed to decode receipt payload: "@ + m@,
            KernelError::UnsupportedWorkflowReceipt(m) => "unsupported workflow receipt kind '"@ + m@ + "'"@,
            KernelError::UnsupportedEffect(m) => "unsupported effect kind '"@ + m@ + "'"@,
            KernelError::IdempotencyKeyInvalid(m) => "invalid idempotency key: "@ + m@,
            KernelError::Journal(m) => "journal error: "@ + m@,
            KernelError::SnapshotUnavailable(m) => "snapshot unavailable: "@ + m@,
            KernelError::SnapshotDecode(m) => "snapshot decode error: "@ + m@,
            KernelError::SecretResolver(m) => "secret resolve error: "@ + m@,
            KernelError::SecretResolution(m) => "secret validation failed: "@ + m@,
            KernelError::ManifestValidation(m) => "manifest validation error: "@ + m@,
            KernelError::Query(m) => "query error: "@ + m@,
            KernelError::Entropy(m) => "entropy error: "@ + m@,
            KernelError::ProposalNotFound(n) => "proposal "@ + decimal(n as nat) + " not found"@,
            KernelError::ProposalStateInvalid { proposal_id, state, required } => "proposal "@
                + decimal(proposal_id as nat) + " is in state "@ + state.name() + ", expected "@
                + required@,
            KernelError::ProposalAlreadyApplied(n) => "proposal "@ + decimal(n as nat)
                + " already applied"@,
            KernelError::ManifestApplyBlockedInFlight {
                plan_instances,
                waiting_events,
                pending_plan_receipts,
                pending_workflow_receipts,
                queued_effects,
                workflow_queue_pending,
            } => "manifest apply blocked: in-flight runtime state exists (plans="@ + decimal(
                plan_instances as nat,
            ) + ", waiting_events="@ + decimal(waiting_events as nat)
                + ", pending_plan_receipts="@ + decimal(pending_plan_receipts as nat)
                + ", pending_workflow_receipts="@ + decimal(pending_workflow_receipts as nat)
                + ", queued_effects="@ + decimal(queued_effects as nat)
                + ", workflow_queue_pending="@ + (if workflow_queue_pending {
                "true"@
            } else {
                "false"@
            }) + ")"@,
            KernelError::ShadowPatchMismatch { expected, actual } =>
            "shadow patch hash mismatch: expected "@ + expected@ + ", got "@ + actual@,
            KernelError::SecretResolverMissing =>
            "secret resolver missing for manifest containing secrets"@,
            KernelError::SecretPolicyDenied { alias, version, reason } =>
            "secret policy denied for "@ + alias@ + "@"@ + decimal(version as nat) + ": "@ + reason@,
            KernelError::PlanCapabilityMissing { plan, cap } => "plan '"@ + plan@
                + "' has no capability '"@ + cap@ + "'"@,
            KernelError::CapabilityGrantNotFound(m) => "missing capability grant '"@ + m@ + "'"@,
            KernelError::CapabilityTypeMismatch { grant, expected, found, effect_kind } =>
            "capability grant '"@ + grant@ + "' has type "@ + found@ + ", but effect '"@
                + effect_kind@ + "' needs "@ + expected@,
            KernelError::DuplicateCapabilityGrant(m) => "duplicate capability grant '"@ + m@ + "'"@,
            KernelError::CapabilityDefinitionNotFound(m) => "missing capability definition '"@ + m@
                + "'"@,
            KernelError::CapabilityParamInvalid { grant, cap, reason } => "params of grant '"@
                + grant@ + "' do not fit capability '"@ + cap@ + "': "@ + reason@,
            KernelError::CapabilityEncoding(m) => "capability encoding error: "@ + m@,
            KernelError::CapabilityDenied { cap, effect_kind, reason } => "capability '"@ + cap@
                + "' denied effect '"@ + effect_kind@ + "': "@ + reason@,
            KernelError::PolicyDenied { effect_kind, origin } => "policy denied effect '"@
                + effect_kind@ + "' from "@ + origin@,
            KernelError::ReducerNotFound(m) => "missing reducer '"@ + m@ + "'"@,
        }
    }

    pub fn message(&self) -> (r: String)
        ensures
            r@ == self.text(),
    {
        match self {
            KernelError::Store(e) => join2("store error: ", e.message().as_str()),
            KernelError::Wasm(m) => join2("wasm runtime error: ", m.as_str()),
            KernelError::Manifest(m) => join2("manifest loader error: ", m.as_str()),
            KernelError::WorkflowNotFound(m) => join3("missing workflow '", m.as_str(), "'"),
            KernelError::PureNotFound(m) => join3("missing pure module '", m.as_str(), "'"),
            KernelError::WorkflowOutput(m) => join2("invalid workflow output: ", m.as_str()),
            KernelError::EffectManager(m) => join2("effect manager error: ", m.as_str()),
            KernelError::UnknownReceipt(m) => join2("unknown effect receipt for ", m.as_str()),
            KernelError::ReceiptDecode(m) => join2("failed to decode receipt payload: ", m.as_str()),
            KernelError::UnsupportedWorkflowReceipt(m) => join3("unsupported workflow receipt kind '", m.as_str(), "'"),
            KernelError::UnsupportedEffect(m) => join3("unsupported effect kind '", m.as_str(), "'"),
            KernelError::IdempotencyKeyInvalid(m) => join2("invalid idempotency key: ", m.as_str()),
            KernelError::Journal(m) => join2("journal error: ", m.as_str()),
            KernelError::SnapshotUnavailable(m) => join2("snapshot unavailable: ", m.as_str()),
            KernelError::SnapshotDecode(m) => join2("snapshot decode error: ", m.as_str()),
            KernelError::SecretResolver(m) => join2("secret resolve error: ", m.as_str()),
            KernelError::SecretResolution(m) => join2("secret validation failed: ", m.as_str()),
            KernelError::ManifestValidation(m) => join2("manifest validation error: ", m.as_str()),
            KernelError::Query(m) => join2("query error: ", m.as_str()),
            KernelError::Entropy(m) => join2("entropy error: ", m.as_str()),
            KernelError::ProposalNotFound(n) => join3(
                "proposal ",
                decimal_text(*n).as_str(),
                " not found",
            ),
            KernelError::ProposalStateInvalid { proposal_id, state, required } => {
                let head = join4(
                    "proposal ",
                    decimal_text(*proposal_id).as_str(),
                    " is in state ",
                    state.label(),
                );
                join3(head.as_str(), ", expected ", required)
            },
            KernelError::ProposalAlreadyApplied(n) => join3(
                "proposal ",
                decimal_text(*n).as_str(),
                " already applied",
            ),
            KernelError::ManifestApplyBlockedInFlight {
                plan_instances,
                waiting_events,
                pending_plan_receipts,
                pending_workflow_receipts,
                queued_effects,
                workflow_queue_pending,
            } => {
                let a = join4(
                    "manifest apply blocked: in-flight runtime state exists (plans=",
                    decimal_text(*plan_instances as u64).as_str(),
                    ", waiting_events=",
                    decimal_text(*waiting_events as u64).as_str(),
                );
                let b = join5(
                    a.as_str(),
                    ", pending_plan_receipts=",
                    decimal_text(*pending_plan_receipts as u64).as_str(),
                    ", pending_workflow_receipts=",
                    decimal_text(*pending_workflow_receipts as u64).as_str(),
                );
                let c = join3(
                    b.as_str(),
                    ", queued_effects=",
                    decimal_text(*queued_effects as u64).as_str(),
                );
                let pending = if *workflow_queue_pending {
                    "true"
                } else {
                    "false"
                };
                join4(c.as_str(), ", workflow_queue_pending=", pending, ")")
            },
            KernelError::ShadowPatchMismatch { expected, actual } => join4(
                "shadow patch hash mismatch: expected ",
                expected.as_str(),
                ", got ",
                actual.as_str(),
            ),
            KernelError::SecretResolverMissing =>
            "secret resolver missing for manifest containing secrets".to_owned(),
            KernelError::SecretPolicyDenied { alias, version, reason } => {
                let head = join4(
                    "secret policy denied for ",
                    alias.as_str(),
                    "@",
                    decimal_text(*version).as_str(),
                );
                join3(head.as_str(), ": ", reason.as_str())
            },
            KernelError::PlanCapabilityMissing { plan, cap } => join5(
                "plan '",
                plan.as_str(),
                "' has no capability '",
                cap.as_str(),
                "'",
            ),
            KernelError::CapabilityGrantNotFound(m) => join3(
                "missing capability grant '",
                m.as_str(),
                "'",
            ),
            KernelError::CapabilityTypeMismatch { grant, expected, found, effect_kind } => {
                let head = join5(
                    "capability grant '",
                    grant.as_str(),
                    "' has type ",
                    found.as_str(),
                    ", but effect '",
                );
                join4(head.as_str(), effect_kind.as_str(), "' needs ", expected.as_str())
            },
            KernelError::DuplicateCapabilityGrant(m) => join3(
                "duplicate capability grant '",
                m.as_str(),
                "'",
            ),
            KernelError::CapabilityDefinitionNotFound(m) => join3(
                "missing capability definition '",
                m.as_str(),
                "'",
            ),
            KernelError::CapabilityParamInvalid { grant, cap, reason } => {
                let head = join5(
                    "params of grant '",
                    grant.as_str(),
                    "' do not fit capability '",
                    cap.as_str(),
                    "': ",
                );
                join2(head.as_str(), reason.as_str())
            },
            KernelError::CapabilityEncoding(m) => join2("capability encoding error: ", m.as_str()),
            KernelError::CapabilityDenied { cap, effect_kind, reason } => {
                let head = join5(
                    "capability '",
                    cap.as_str(),
                    "' denied effect '",
                    effect_kind.as_str(),
                    "': ",
                );
                join2(head.as_str(), reason.as_str())
            },
            KernelError::PolicyDenied { effect_kind, origin } => join4(
                "policy denied effect '",
                effect_kind.as_str(),
                "' from ",
                origin.as_str(),
            ),
            KernelError::ReducerNotFound(m) => join3("missing reducer '", m.as_str(), "'"),
        }
    }

    /// The stable code of the kind of error.
    pub open spec fn code_text(self) -> Seq<char> {
        match self {
            KernelError::Store(_) => "store.error"@,
            KernelError::Wasm(_) => "wasm.error"@,
            KernelError::Manifest(_) => "manifest.error"@,
            KernelError::WorkflowNotFound(_) => "workflow.missing"@,
            KernelError::PureNotFound(_) => "pure.missing"@,
            KernelError::WorkflowOutput(_) => "workflow.output_invalid"@,
            KernelError::EffectManager(_) => "effect.manager"@,
            KernelError::UnknownReceipt(_) => "receipt.unknown"@,
            KernelError::ReceiptDecode(_) => "receipt.decode"@,
            KernelError::UnsupportedWorkflowReceipt(_) => "receipt.workflow_unsupported"@,
            KernelError::UnsupportedEffect(_) => "effect.op_unsupported"@,
            KernelError::IdempotencyKeyInvalid(_) => "idempotency.invalid"@,
            KernelError::Journal(_) => "journal.error"@,
            KernelError::SnapshotUnavailable(_) => "snapshot.unavailable"@,
            KernelError::SnapshotDecode(_) => "snapshot.decode"@,
            KernelError::SecretResolver(_) => "secret.resolver_error"@,
            KernelError::SecretResolution(_) => "secret.resolve_error"@,
            KernelError::ManifestValidation(_) => "manifest.validation"@,
            KernelError::Query(_) => "query.error"@,
            KernelError::Entropy(_) => "entropy.error"@,
            KernelError::ProposalNotFound(_) => "governance.proposal_missing"@,
            KernelError::ProposalStateInvalid { .. } => "governance.proposal_state"@,
            KernelError::ProposalAlreadyApplied(_) => "governance.proposal_applied"@,
            KernelError::ManifestApplyBlockedInFlight { .. } => "governance.apply_inflight"@,
            KernelError::ShadowPatchMismatch { .. } => "governance.shadow_mismatch"@,
            KernelError::SecretResolverMissing => "secret.resolver_missing"@,
            KernelError::SecretPolicyDenied { .. } => "secret.policy_denied"@,
            KernelError::PlanCapabilityMissing { .. } => "capability.plan_missing"@,
            KernelError::CapabilityGrantNotFound(_) => "capability.grant_missing"@,
            KernelError::CapabilityTypeMismatch { .. } => "capability.type_mismatch"@,
            KernelError::DuplicateCapabilityGrant(_) => "capability.grant_duplicate"@,
            KernelError::CapabilityDefinitionNotFound(_) => "capability.definition_missing"@,
            KernelError::CapabilityParamInvalid { .. } => "capability.params_invalid"@,
            KernelError::CapabilityEncoding(_) => "capability.encoding"@,
            KernelError::CapabilityDenied { .. } => "capability.denied"@,
            KernelError::PolicyDenied { .. } => "policy.denied"@,
            KernelError::ReducerNotFound(_) => "reducer.missing"@,
        }
    }

    /// The stable code of the kind of error, for diagnostics and tooling.
    pub fn code(&self) -> (r: &str)
        ensures
            r@ == self.code_text(),
    {
        match self {
            KernelError::Store(_) => "store.error",
            KernelError::Wasm(_) => "wasm.error",
            KernelError::Manifest(_) => "manifest.error",
            KernelError::WorkflowNotFound(_) => "workflow.missing",
            KernelError::PureNotFound(_) => "pure.missing",
            KernelError::WorkflowOutput(_) => "workflow.output_invalid",
            KernelError::EffectManager(_) => "effect.manager",
            KernelError::UnknownReceipt(_) => "receipt.unknown",
            KernelError::ReceiptDecode(_) => "receipt.decode",
            KernelError::UnsupportedWorkflowReceipt(_) => "receipt.workflow_unsupported",
            KernelError::UnsupportedEffect(_) => "effect.op_unsupported",
            KernelError::IdempotencyKeyInvalid(_) => "idempotency.invalid",
            KernelError::Journal(_) => "journal.error",
            KernelError::SnapshotUnavailable(_) => "snapshot.unavailable",
            KernelError::SnapshotDecode(_) => "snapshot.decode",
            KernelError::SecretResolver(_) => "secret.resolver_error",
            KernelError::SecretResolution(_) => "secret.resolve_error",
            KernelError::ManifestValidation(_) => "manifest.validation",
            KernelError::Query(_) => "query.error",
            KernelError::Entropy(_) => "entropy.error",
            KernelError::ProposalNotFound(_) => "governance.proposal_missing",
            KernelError::ProposalStateInvalid { .. } => "governance.proposal_state",
            KernelError::ProposalAlreadyApplied(_) => "governance.proposal_applied",
            KernelError::ManifestApplyBlockedInFlight { .. } => "governance.apply_inflight",
            KernelError::ShadowPatchMismatch { .. } => "governance.shadow_mismatch",
            KernelError::SecretResolverMissing => "secret.resolver_missing",
            KernelError::SecretPolicyDenied { .. } => "secret.policy_denied",
            KernelError::PlanCapabilityMissing { .. } => "capability.plan_missing",
            KernelError::CapabilityGrantNotFound(_) => "capability.grant_missing",
            KernelError::CapabilityTypeMismatch { .. } => "capability.type_mismatch",
            KernelError::DuplicateCapabilityGrant(_) => "capability.grant_duplicate",
            KernelError::CapabilityDefinitionNotFound(_) => "capability.definition_missing",
            KernelError::CapabilityParamInvalid { .. } => "capability.params_invalid",
            KernelError::CapabilityEncoding(_) => "capability.encoding",
            KernelError::CapabilityDenied { .. } => "capability.denied",
            KernelError::PolicyDenied { .. } => "policy.denied",
            KernelError::ReducerNotFound(_) => "reducer.missing",
        }
    }
}

/// A manifest error with this text.
pub open spec fn is_manifest_error(e: KernelError, text: Seq<char>) -> bool {
    e matches KernelError::Manifest(m) && m@ == text
}

/// A query error with this text.
pub open spec fn is_query_error(e: KernelError, text: Seq<char>) -> bool {
    e matches KernelError::Query(m) && m@ == text
}

} // verus!
