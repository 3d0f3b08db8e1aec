//! Proposals to change the manifest.
use std::collections::HashMap;
use vstd::prelude::*;

use crate::air::{refs_view, AirNode, Builtins, Manifest, ManifestView, NamedRef, NodeKind, NodeTree,
    RefView};
use crate::error::{is_manifest_error, KernelError};
use crate::governance_utils::{all_zero, is_zero_hash};
use crate::hash::{ContentHash, HashRef};
use crate::journal::{ApprovalDecisionRecord, GovernanceRecord, ProposedRecord, ShadowReportRecord};
use crate::manifest::{fill_builtins, with_builtins, EffectCatalog, LoadedManifest, LoadedView};
use crate::manifest_catalog::ref_digest;
use crate::names::{deep, lemma_deep_insert, NameMap};
use crate::shadow::summary::{allowlists_view, copy_allowlists, copy_instances, copy_pending,
    copy_predicted, PendingWorkflowReceipt, PredictedEffect, ShadowSummary, WorkflowInstancePreview};
use crate::store::{read_fails, Store, StoreError, StoreNode};
use crate::text::{copy_option, join3, join4, last_index, parse_u64, parsed_u64, split_last,
    str_eq};

verus! {

/// How far a proposal has come.
#[derive(Clone, Copy, Debug, PartialEq, Eq, Structural)]
pub enum ProposalState {
    Submitted,
    Shadowed,
    Approved,
    Rejected,
    Applied,
}

impl ProposalState {
    pub open spec fn name(self) -> Seq<char> {
        match self {
            ProposalState::Submitted => "Submitted"@,
            ProposalState::Shadowed => "Shadowed"@,
            ProposalState::Approved => "Approved"@,
            ProposalState::Rejected => "Rejected"@,
            ProposalState::Applied => "Applied"@,
        }
    }

    pub fn label(&self) -> (r: &'static str)
        ensures
            r@ == self.name(),
    {
        match self {
            ProposalState::Submitted => "Submitted",
            ProposalState::Shadowed => "Shadowed",
            ProposalState::Approved => "Approved",
            ProposalState::Rejected => "Rejected",
            ProposalState::Applied => "Applied",
        }
    }
}

/// A proposal to change the manifest.
#[derive(Debug)]
pub struct Proposal {
    pub id: u64,
    pub description: Option<String>,
    pub patch_hash: String,
    pub state: ProposalState,
    pub shadow_summary: Option<ShadowSummary>,
    pub approver: Option<String>,
}

/// The model of the report of a shadow run.
pub struct SummaryView {
    pub manifest_hash: Seq<char>,
    pub predicted_effects: Seq<PredictedEffect>,
    pub pending_workflow_receipts: Seq<PendingWorkflowReceipt>,
    pub workflow_instances: Seq<WorkflowInstancePreview>,
    pub module_effect_allowlists: Seq<(Seq<char>, Seq<String>)>,
}

/// The model of a proposal.
pub struct ProposalView {
    pub id: u64,
    pub description: Option<Seq<char>>,
    pub patch_hash: Seq<char>,
    pub state: ProposalState,
    pub shadow_summary: Option<SummaryView>,
    pub approver: Option<Seq<char>>,
}

pub open spec fn option_text(s: Option<String>) -> Option<Seq<char>> {
    match s {
        Some(t) => Some(t@),
        None => None,
    }
}

impl View for ShadowSummary {
    type V = SummaryView;

    open spec fn view(&self) -> SummaryView {
        SummaryView {
            manifest_hash: self.manifest_hash@,
            predicted_effects: self.predicted_effects@,
            pending_workflow_receipts: self.pending_workflow_receipts@,
            workflow_instances: self.workflow_instances@,
            module_effect_allowlists: allowlists_view(self.module_effect_allowlists@),
        }
    }
}

impl View for Proposal {
    type V = ProposalView;

    open spec fn view(&self) -> ProposalView {
        ProposalView {
            id: self.id,
            description: option_text(self.description),
            patch_hash: self.patch_hash@,
            state: self.state,
            shadow_summary: match self.shadow_summary {
                Some(s) => Some(s@),
                None => None,
            },
            approver: option_text(self.approver),
        }
    }
}

/// The proposal that a record submits.
pub open spec fn proposed(record: ProposedRecord) -> ProposalView {
    ProposalView {
        id: record.proposal_id,
        description: option_text(record.description),
        patch_hash: record.patch_hash@,
        state: ProposalState::Submitted,
        shadow_summary: None,
        approver: None,
    }
}

/// The report of a shadow run in a record.
pub open spec fn reported(record: ShadowReportRecord) -> SummaryView {
    SummaryView {
        manifest_hash: record.manifest_hash@,
        predicted_effects: record.effects_predicted@,
        pending_workflow_receipts: record.pending_workflow_receipts@,
        workflow_instances: record.workflow_instances@,
        module_effect_allowlists: allowlists_view(record.module_effect_allowlists@),
    }
}

impl Proposal {
    fn new(record: &ProposedRecord) -> (r: Self)
        ensures
            r@ == proposed(*record),
    {
        Proposal {
            id: record.proposal_id,
            description: copy_option(&record.description),
            patch_hash: record.patch_hash.clone(),
            state: ProposalState::Submitted,
            shadow_summary: None,
            approver: None,
        }
    }
}

/// The proposals of a world, by number.
#[derive(Debug)]
pub struct GovernanceManager {
    pub proposals: HashMap<u64, Proposal>,
    pub next_id: u64,
}

/// The model of the proposals.
pub struct GovernanceState {
    pub proposals: Map<u64, ProposalView>,
    pub next_id: u64,
}

impl View for GovernanceManager {
    type V = GovernanceState;

    open spec fn view(&self) -> GovernanceState {
        GovernanceState {
            proposals: self.proposals@.map_values(|p: Proposal| p@),
            next_id: self.next_id,
        }
    }
}

impl GovernanceState {
    /// Whether no number in use is still to be given out.
    pub open spec fn wf(self) -> bool {
        forall|id: u64| #[trigger] self.proposals.contains_key(id) ==> id < self.next_id
    }

    /// The state after a number has been seen.
    pub open spec fn observed(self, id: u64) -> GovernanceState {
        GovernanceState {
            next_id: if id >= self.next_id {
                (id + 1) as u64
            } else {
                self.next_id
            },
            ..self
        }
    }

    /// The state after a record.
    pub open spec fn after(self, record: GovernanceRecord) -> GovernanceState {
        match record {
            GovernanceRecord::Proposed(s) => {
                let seen = self.observed(s.proposal_id);
                if seen.proposals.contains_key(s.proposal_id) {
                    seen
                } else {
                    GovernanceState {
                        proposals: seen.proposals.insert(s.proposal_id, proposed(s)),
                        ..seen
                    }
                }
            },
            GovernanceRecord::ShadowReport(s) => if self.proposals.contains_key(s.proposal_id) {
                let p = self.proposals[s.proposal_id];
                GovernanceState {
                    proposals: self.proposals.insert(
                        s.proposal_id,
                        ProposalView {
                            state: ProposalState::Shadowed,
                            shadow_summary: Some(reported(s)),
                            ..p
                        },
                    ),
                    ..self
                }
            } else {
                self
            },
            GovernanceRecord::Approved(a) => if self.proposals.contains_key(a.proposal_id) {
                let p = self.proposals[a.proposal_id];
                GovernanceState {
                    proposals: self.proposals.insert(
                        a.proposal_id,
                        ProposalView {
                            state: if a.decision == ApprovalDecisionRecord::Approve {
                                ProposalState::Approved
                            } else {
                                ProposalState::Rejected
                            },
                            approver: Some(a.approver@),
                            ..p
                        },
                    ),
                    ..self
                }
            } else {
                self
            },
            GovernanceRecord::Applied(a) => {
                let seen = self.observed(a.proposal_id);
                let p = if seen.proposals.contains_key(a.proposal_id) {
                    ProposalView {
                        state: ProposalState::Applied,
                        ..seen.proposals[a.proposal_id]
                    }
                } else {
                    ProposalView {
                        id: a.proposal_id,
                        description: None,
                        patch_hash: a.patch_hash@,
                        state: ProposalState::Applied,
                        shadow_summary: None,
                        approver: None,
                    }
                };
                GovernanceState { proposals: seen.proposals.insert(a.proposal_id, p), ..seen }
            },
        }
    }
}

/// The proposal number that a record names.
pub open spec fn record_id(record: GovernanceRecord) -> u64 {
    match record {
        GovernanceRecord::Proposed(s) => s.proposal_id,
        GovernanceRecord::ShadowReport(s) => s.proposal_id,
        GovernanceRecord::Approved(a) => a.proposal_id,
        GovernanceRecord::Applied(a) => a.proposal_id,
    }
}

impl GovernanceManager {
    pub fn new() -> (r: Self)
        ensures
            r@.proposals == Map::<u64, ProposalView>::empty(),
            r@.next_id == 0,
            r@.wf(),
    {
        let r = GovernanceManager { proposals: HashMap::new(), next_id: 0 };
        assert(r@.proposals =~= Map::<u64, ProposalView>::empty());
        r
    }

    /// Gives out a number.
    pub fn alloc_proposal_id(&mut self) -> (r: u64)
        requires
            old(self)@.next_id < u64::MAX,
        ensures
            r == old(self)@.next_id,
            final(self)@.next_id == r + 1,
            final(self)@.proposals == old(self)@.proposals,
            old(self)@.wf() ==> final(self)@.wf() && !old(self)@.proposals.contains_key(r),
    {
        let id: u64 = self.next_id;
        self.next_id = id + 1;
        id
    }

    fn observe_proposal_id(&mut self, id: u64)
        requires
            id < u64::MAX,
        ensures
            final(self)@ == old(self)@.observed(id),
            final(self).proposals == old(self).proposals,
    {
        if id >= self.next_id {
            self.next_id = id + 1;
        }
    }

    /// Takes a proposal out.
    fn take(&mut self, id: u64) -> (r: Option<Proposal>)
        ensures
            match r {
                Some(p) => old(self)@.proposals.contains_key(id) && p@
                    == old(self)@.proposals[id],
                None => !old(self)@.proposals.contains_key(id),
            },
            final(self)@.proposals == old(self)@.proposals.remove(id),
            final(self)@.next_id == old(self)@.next_id,
    {
        broadcast use vstd::std_specs::hash::group_hash_axioms;

        let ghost before = self@.proposals;
        let r = self.proposals.remove(&id);
        assert(self@.proposals =~= before.remove(id));
        r
    }

    /// Puts a proposal in.
    fn put(&mut self, id: u64, p: Proposal)
        ensures
            final(self)@.proposals == old(self)@.proposals.insert(id, p@),
            final(self)@.next_id == old(self)@.next_id,
    {
        broadcast use vstd::std_specs::hash::group_hash_axioms;

        let ghost before = self@.proposals;
        self.proposals.insert(id, p);
        assert(self@.proposals =~= before.insert(id, p@));
    }

    /// Takes note of a record.
    pub fn apply_record(&mut self, record: &GovernanceRecord)
        requires
            record is Proposed || record is Applied ==> record_id(*record) < u64::MAX,
        ensures
            final(self)@ == old(self)@.after(*record),
    {
        let ghost start = self@;
        match record {
            GovernanceRecord::Proposed(submitted) => {
                self.observe_proposal_id(submitted.proposal_id);
                match self.take(submitted.proposal_id) {
                    Some(p) => {
                        self.put(submitted.proposal_id, p);
                        assert(self@.proposals =~= start.proposals);
                    },
                    None => {
                        self.put(submitted.proposal_id, Proposal::new(submitted));
                        assert(self@.proposals =~= start.after(*record).proposals);
                    },
                }
            },
            GovernanceRecord::ShadowReport(shadow) => {
                match self.take(shadow.proposal_id) {
                    Some(p) => {
                        let mut p = p;
                        p.state = ProposalState::Shadowed;
                        p.shadow_summary = Some(
                            ShadowSummary {
                                manifest_hash: shadow.manifest_hash.clone(),
                                predicted_effects: copy_predicted(&shadow.effects_predicted),
                                pending_workflow_receipts: copy_pending(
                                    &shadow.pending_workflow_receipts,
                                ),
                                workflow_instances: copy_instances(&shadow.workflow_instances),
                                module_effect_allowlists: copy_allowlists(
                                    &shadow.module_effect_allowlists,
                                ),
                            },
                        );
                        self.put(shadow.proposal_id, p);
                        assert(self@.proposals =~= start.after(*record).proposals);
                    },
                    None => {
                        assert(self@.proposals =~= start.proposals);
                    },
                }
            },
            GovernanceRecord::Approved(approved) => {
                match self.take(approved.proposal_id) {
                    Some(p) => {
                        let mut p = p;
                        p.state = match approved.decision {
                            ApprovalDecisionRecord::Approve => ProposalState::Approved,
                            ApprovalDecisionRecord::Reject => ProposalState::Rejected,
                        };
                        p.approver = Some(approved.approver.clone());
                        self.put(approved.proposal_id, p);
                        assert(self@.proposals =~= start.after(*record).proposals);
                    },
                    None => {
                        assert(self@.proposals =~= start.proposals);
                    },
                }
            },
            GovernanceRecord::Applied(applied) => {
                self.observe_proposal_id(applied.proposal_id);
                match self.take(applied.proposal_id) {
                    Some(p) => {
                        let mut p = p;
                        p.state = ProposalState::Applied;
                        self.put(applied.proposal_id, p);
                        assert(self@.proposals =~= start.after(*record).proposals);
                    },
                    None => {
                        self.put(
                            applied.proposal_id,
                            Proposal {
                                id: applied.proposal_id,
                                description: None,
                                patch_hash: applied.patch_hash.clone(),
                                state: ProposalState::Applied,
                                shadow_summary: None,
                                approver: None,
                            },
                        );
                        assert(self@.proposals =~= start.after(*record).proposals);
                    },
                }
            },
        }
    }

    pub fn proposals(&self) -> (r: &HashMap<u64, Proposal>)
        ensures
            *r == self.proposals,
    {
        &self.proposals
    }

    pub fn proposals_mut(&mut self) -> (r: &mut HashMap<u64, Proposal>)
        ensures
            *r == old(self).proposals,
            final(self).proposals == *final(r),
            final(self).next_id == old(self).next_id,
    {
        &mut self.proposals
    }
}

/// No record takes a number back: a number that was given out or seen is never given out again,
/// and no proposal is lost.
pub proof fn lemma_numbers_are_not_reused(g: GovernanceState, record: GovernanceRecord)
    requires
        g.wf(),
        record is Proposed || record is Applied ==> record_id(record) < u64::MAX,
    ensures
        g.after(record).wf(),
        g.after(record).next_id >= g.next_id,
        record is Proposed || record is Applied ==> record_id(record) < g.after(record).next_id,
        forall|id: u64| #[trigger]
            g.proposals.contains_key(id) ==> g.after(record).proposals.contains_key(id),
{
}

/// A second submission under a number changes nothing, and no record changes what was submitted.
pub proof fn lemma_submission_stands(g: GovernanceState, record: GovernanceRecord, id: u64)
    requires
        g.proposals.contains_key(id),
    ensures
        record is Proposed && record_id(record) == id ==> g.after(record).proposals[id]
            == g.proposals[id],
        g.after(record).proposals[id].patch_hash == g.proposals[id].patch_hash,
        g.after(record).proposals[id].description == g.proposals[id].description,
        record_id(record) != id ==> g.after(record).proposals[id] == g.proposals[id],
{
}

/// A decision on a known proposal is what its record says: approved if and only if the record
/// approves, rejected if and only if it rejects, and by whom. Nothing else of it changes.
pub proof fn lemma_decision_is_taken(g: GovernanceState, record: GovernanceRecord, id: u64)
    requires
        record matches GovernanceRecord::Approved(a) && a.proposal_id == id,
        g.proposals.contains_key(id),
    ensures
        ({
            let a = record->Approved_0;
            let p = g.after(record).proposals[id];
            &&& p.state == ProposalState::Approved <==> a.decision
                == ApprovalDecisionRecord::Approve
            &&& p.state == ProposalState::Rejected <==> a.decision == ApprovalDecisionRecord::Reject
            &&& p.approver == Some(a.approver@)
            &&& p.id == g.proposals[id].id
            &&& p.shadow_summary == g.proposals[id].shadow_summary
            &&& g.after(record).proposals.dom() == g.proposals.dom()
            &&& g.after(record).next_id == g.next_id
        }),
{
    assert(g.after(record).proposals.dom() =~= g.proposals.dom());
}

/// A new submission is kept under its number as it was submitted: it has no report and no approver
/// yet, and its state says so.
pub proof fn lemma_submission_is_kept(g: GovernanceState, record: GovernanceRecord, id: u64)
    requires
        record matches GovernanceRecord::Proposed(s) && s.proposal_id == id,
        !g.proposals.contains_key(id),
    ensures
        ({
            let s = record->Proposed_0;
            let after = g.after(record).proposals;
            &&& after.contains_key(id)
            &&& after[id].id == id
            &&& after[id].state == ProposalState::Submitted
            &&& after[id].patch_hash == s.patch_hash@
            &&& s.description matches Some(t) ==> after[id].description == Some(t@)
            &&& s.description is None ==> after[id].description is None
            &&& after[id].shadow_summary is None
            &&& after[id].approver is None
            &&& after.remove(id) == g.proposals
        }),
{
    assert(g.after(record).proposals.remove(id) =~= g.proposals);
}

/// A report on a known proposal is kept with it as it was reported, and the proposal counts as
/// shadowed. A report or a decision on an unknown one changes nothing.
pub proof fn lemma_report_is_kept(g: GovernanceState, record: GovernanceRecord, id: u64)
    requires
        record is ShadowReport || record is Approved,
        record_id(record) == id,
    ensures
        !g.proposals.contains_key(id) ==> g.after(record) == g,
        g.proposals.contains_key(id) ==> (record matches GovernanceRecord::ShadowReport(s) ==> {
            let p = g.after(record).proposals[id];
            &&& p.state == ProposalState::Shadowed
            &&& p.shadow_summary matches Some(r) && {
                &&& r.manifest_hash == s.manifest_hash@
                &&& r.predicted_effects == s.effects_predicted@
                &&& r.pending_workflow_receipts == s.pending_workflow_receipts@
                &&& r.workflow_instances == s.workflow_instances@
                &&& r.module_effect_allowlists == allowlists_view(s.module_effect_allowlists@)
            }
            &&& p.id == g.proposals[id].id
            &&& p.approver == g.proposals[id].approver
            &&& g.after(record).next_id == g.next_id
        }),
{
}

/// What was applied counts as applied, whether or not it was known before; of one that was not
/// known, the record says the number and the patch.
pub proof fn lemma_application_is_kept(g: GovernanceState, record: GovernanceRecord, id: u64)
    requires
        record matches GovernanceRecord::Applied(a) && a.proposal_id == id,
        id < u64::MAX,
    ensures
        ({
            let p = g.after(record).proposals[id];
            &&& g.after(record).proposals.contains_key(id)
            &&& p.state == ProposalState::Applied
            &&& if g.proposals.contains_key(id) {
                p.id == g.proposals[id].id && p.approver == g.proposals[id].approver
                    && p.shadow_summary == g.proposals[id].shadow_summary
            } else {
                p.id == id && p.patch_hash == record->Applied_0.patch_hash@ && p.description is None
                    && p.approver is None && p.shadow_summary is None
            }
            &&& g.after(record).next_id > id
        }),
{
}

/// Only its own records change a proposal, and the next number moves only past a number that is
/// submitted or applied.
pub proof fn lemma_other_proposals_stand(g: GovernanceState, record: GovernanceRecord, id: u64)
    requires
        record_id(record) != id,
        record is Proposed || record is Applied ==> record_id(record) < u64::MAX,
    ensures
        g.after(record).proposals.contains_key(id) == g.proposals.contains_key(id),
        g.proposals.contains_key(id) ==> g.after(record).proposals[id] == g.proposals[id],
        g.after(record).next_id == g.next_id || ((record is Proposed || record is Applied)
            && g.after(record).next_id == record_id(record) + 1 && g.next_id <= record_id(record)),
{
}

/// A manifest, with the definitions that are new in it.
#[derive(Debug)]
pub struct ManifestPatch {
    pub manifest: Manifest,
    pub nodes: Vec<AirNode>,
}

/// The model of a patch.
#[verifier::ext_equal]
pub struct PatchView {
    pub manifest: ManifestView,
    pub nodes: Seq<NodeTree>,
}

impl View for ManifestPatch {
    type V = PatchView;

    open spec fn view(&self) -> PatchView {
        PatchView { manifest: self.manifest@, nodes: nodes_view(self.nodes@) }
    }
}

/// The models of a list of definitions.
pub open spec fn nodes_view(nodes: Seq<AirNode>) -> Seq<NodeTree> {
    Seq::new(nodes.len(), |i: int| nodes[i]@)
}

/// The error of a malformed secret name.
pub open spec fn secret_name_fault(name: Seq<char>, why: Seq<char>) -> Seq<char> {
    "invalid defsecret name '"@ + name + "': "@ + why
}

/// The alias and the version in the name of a secret, or why there are none.
pub open spec fn named_secret(name: Seq<char>) -> Result<(Seq<char>, u64), Seq<char>> {
    let at = last_index(name, '@');
    match parsed_u64(if at < 0 { name } else { name.skip(at + 1) }) {
        Err(_) => Err(secret_name_fault(name, "version must be a positive integer"@)),
        Ok(v) => if v == 0 {
            Err(secret_name_fault(name, "version must be >= 1"@))
        } else if at <= 0 {
            Err(secret_name_fault(name, "missing alias prefix"@))
        } else {
            Ok((name.take(at), v as u64))
        },
    }
}

/// Splits the name of a secret into alias and version.
pub fn parse_secret_name(name: &str) -> (r: Result<(String, u64), KernelError>)
    ensures
        match (r, named_secret(name@)) {
            (Ok((a, v)), Ok((b, w))) => a@ == b && v == w,
            (Err(e), Err(t)) => is_manifest_error(e, t),
            _ => false,
        },
{
    proof {
        crate::text::lemma_last_index(name@, '@');
    }
    let (alias, version) = match split_last(name, '@') {
        Some((a, v)) => (Some(a), v),
        None => (None, name),
    };
    let n: u64 = match parse_u64(version) {
        Ok(n) => n,
        Err(_) => {
            return Err(
                KernelError::Manifest(
                    join4(
                        "invalid defsecret name '",
                        name,
                        "': ",
                        "version must be a positive integer",
                    ),
                ),
            );
        },
    };
    if n == 0 {
        return Err(
            KernelError::Manifest(
                join4("invalid defsecret name '", name, "': ", "version must be >= 1"),
            ),
        );
    }
    match alias {
        Some(a) => if a.unicode_len() > 0 {
            return Ok((a.to_owned(), n));
        },
        None => {},
    }
    Err(
        KernelError::Manifest(
            join4("invalid defsecret name '", name, "': ", "missing alias prefix"),
        ),
    )
}

/// The definitions of one kind among the first `n`, by name; of several with one name the last
/// counts.
pub open spec fn defs_of(nodes: Seq<NodeTree>, kind: NodeKind, n: nat) -> Map<Seq<char>, NodeTree>
    decreases n,
{
    if n == 0 || n > nodes.len() {
        Map::empty()
    } else {
        let before = defs_of(nodes, kind, (n - 1) as nat);
        if nodes[n - 1].kind == kind {
            before.insert(nodes[n - 1].name, nodes[n - 1])
        } else {
            before
        }
    }
}

fn collect_defs(nodes: &Vec<AirNode>, kind: NodeKind) -> (r: NameMap<AirNode>)
    ensures
        deep(r.map()) == defs_of(nodes_view(nodes@), kind, nodes@.len()),
{
    let ghost view = nodes_view(nodes@);
    let mut out: NameMap<AirNode> = NameMap::new();
    let mut i: usize = 0;
    assert(deep(out.map()) =~= Map::empty());
    while i < nodes.len()
        invariant
            i <= nodes@.len(),
            view == nodes_view(nodes@),
            deep(out.map()) == defs_of(view, kind, i as nat),
        decreases nodes@.len() - i,
    {
        assert(view[i as int] == nodes@[i as int]@);
        if nodes[i].kind == kind {
            let node = nodes[i].copied();
            proof {
                lemma_deep_insert(out.map(), node.name@, node);
            }
            out.insert(nodes[i].name.clone(), node);
        }
        i += 1;
    }
    out
}

/// The secrets among the first `n` definitions, in order.
pub open spec fn secrets_of(nodes: Seq<NodeTree>, n: nat) -> Result<Seq<NodeTree>, Seq<char>>
    decreases n,
{
    if n == 0 || n > nodes.len() {
        Ok(Seq::empty())
    } else {
        match secrets_of(nodes, (n - 1) as nat) {
            Err(e) => Err(e),
            Ok(found) => if nodes[n - 1].kind != NodeKind::Secret {
                Ok(found)
            } else {
                match named_secret(nodes[n - 1].name) {
                    Err(e) => Err(e),
                    Ok(_) => Ok(found.push(nodes[n - 1])),
                }
            },
        }
    }
}

proof fn lemma_secrets_fault(nodes: Seq<NodeTree>, k: nat, n: nat)
    requires
        k <= n <= nodes.len(),
        secrets_of(nodes, k) is Err,
    ensures
        secrets_of(nodes, n) == secrets_of(nodes, k),
    decreases n,
{
    if k < n {
        lemma_secrets_fault(nodes, k, (n - 1) as nat);
    }
}

fn collect_secrets(nodes: &Vec<AirNode>) -> (r: Result<Vec<AirNode>, KernelError>)
    ensures
        match (r, secrets_of(nodes_view(nodes@), nodes@.len())) {
            (Ok(v), Ok(t)) => nodes_view(v@) == t,
            (Err(e), Err(t)) => is_manifest_error(e, t),
            _ => false,
        },
{
    let ghost view = nodes_view(nodes@);
    let mut out: Vec<AirNode> = Vec::new();
    let mut i: usize = 0;
    assert(nodes_view(out@) =~= Seq::empty());
    while i < nodes.len()
        invariant
            i <= nodes@.len(),
            view == nodes_view(nodes@),
            secrets_of(view, i as nat) == Ok::<Seq<NodeTree>, Seq<char>>(nodes_view(out@)),
        decreases nodes@.len() - i,
    {
        assert(view[i as int] == nodes@[i as int]@);
        if nodes[i].kind == NodeKind::Secret {
            match parse_secret_name(nodes[i].name.as_str()) {
                Ok(_) => {},
                Err(e) => {
                    proof {
                        lemma_secrets_fault(view, (i + 1) as nat, view.len());
                    }
                    return Err(e);
                },
            }
            let ghost sofar = nodes_view(out@);
            out.push(nodes[i].copied());
            assert(nodes_view(out@) =~= sofar.push(nodes@[i as int]@));
        }
        i += 1;
    }
    Ok(out)
}

/// The error of a reference whose digest is not known.
pub open spec fn missing_hash_fault(value: Seq<char>) -> Seq<char> {
    "missing manifest ref hash for '"@ + value + "'"@
}

/// The digest in a reference, which must be known.
pub fn parse_manifest_hash(value: &HashRef) -> (r: Result<ContentHash, KernelError>)
    ensures
        match r {
            Ok(h) => h@ == ref_digest((Seq::empty(), value@)) && !all_zero(h@),
            Err(e) => all_zero(ref_digest((Seq::empty(), value@))) && is_manifest_error(
                e,
                missing_hash_fault(value@),
            ),
        },
{
    let h = match ContentHash::from_hex_str(value.as_str()) {
        Ok(h) => h,
        Err(_) => ContentHash::from_array([0u8; 32]),
    };
    if is_zero_hash(&h) {
        Err(
            KernelError::Manifest(
                join3("missing manifest ref hash for '", value.as_str(), "'"),
            ),
        )
    } else {
        Ok(h)
    }
}

/// The error of a reference to a definition of another kind.
pub open spec fn wrong_kind_fault(word: Seq<char>, kind: Seq<char>) -> Seq<char> {
    "manifest "@ + word + " ref did not point to "@ + kind
}

/// The definitions with those that the first `n` references point to, where they are missing;
/// nothing where one cannot be had.
pub open spec fn defs_loaded(
    before: Map<Seq<char>, NodeTree>,
    refs: Seq<RefView>,
    kind: NodeKind,
    stored: Map<Seq<u8>, NodeTree>,
    n: nat,
) -> Option<Map<Seq<char>, NodeTree>>
    decreases n,
{
    if n == 0 || n > refs.len() {
        Some(before)
    } else {
        match defs_loaded(before, refs, kind, stored, (n - 1) as nat) {
            None => None,
            Some(m) => {
                let h = ref_digest(refs[n - 1]);
                if m.contains_key(refs[n - 1].0) {
                    Some(m)
                } else if !all_zero(h) && stored.contains_key(h) && stored[h].kind == kind {
                    Some(m.insert(refs[n - 1].0, stored[h]))
                } else {
                    None
                }
            },
        }
    }
}

/// Whether `e` is a fault of loading definitions: the first missing one has an unknown digest, or
/// reading it from the store failed, or gave a definition of another kind.
pub open spec fn defs_load_failed<S: Store<AirNode>>(
    before: Map<Seq<char>, NodeTree>,
    refs: Seq<RefView>,
    kind: NodeKind,
    word: Seq<char>,
    store: S,
    e: KernelError,
) -> bool {
    let stored = store.nodes();
    exists|k: nat|
        k < refs.len() && match #[trigger] defs_loaded(before, refs, kind, stored, k) {
            None => false,
            Some(m) => {
                let r = refs[k as int];
                let h = ref_digest(r);
                &&& !m.contains_key(r.0)
                &&& if all_zero(h) {
                    is_manifest_error(e, missing_hash_fault(r.1))
                } else if stored.contains_key(h) && stored[h].kind != kind {
                    is_manifest_error(e, wrong_kind_fault(word, kind.name())) || is_load_error(
                        e,
                        kind.name(),
                        store,
                        h,
                    )
                } else {
                    is_load_error(e, kind.name(), store, h)
                }
            },
        }
}

/// Whether `e` reports what the store says when it is asked for the definition under a digest.
pub open spec fn is_load_error<S: Store<AirNode>>(
    e: KernelError,
    label: Seq<char>,
    store: S,
    h: Seq<u8>,
) -> bool {
    exists|why: StoreError| #[trigger]
        read_fails::<AirNode, S>(store, h, why) && is_manifest_error(
            e,
            "load "@ + label + ": "@ + why.text(),
        )
}

fn load_error(label: &str, why: &str) -> (r: KernelError)
    ensures
        is_manifest_error(r, "load "@ + label@ + ": "@ + why@),
{
    KernelError::Manifest(join4("load ", label, ": ", why))
}

/// Loads the definitions that references point to and that are not there yet.
pub fn load_defs_from_manifest<S: Store<AirNode>>(
    store: &S,
    refs: &Vec<NamedRef>,
    defs: &mut NameMap<AirNode>,
    kind: NodeKind,
    word: &str,
) -> (r: Result<(), KernelError>)
    ensures
        match r {
            Ok(_) => defs_loaded(
                deep(old(defs).map()),
                refs_view(refs@),
                kind,
                store.nodes(),
                refs@.len(),
            ) == Some(deep(final(defs).map())),
            Err(e) => defs_load_failed(
                deep(old(defs).map()),
                refs_view(refs@),
                kind,
                word@,
                *store,
                e,
            ),
        },
{
    let ghost before = deep(defs.map());
    let ghost view = refs_view(refs@);
    let ghost stored = store.nodes();
    let mut i: usize = 0;
    while i < refs.len()
        invariant
            i <= refs@.len(),
            before == deep(old(defs).map()),
            view == refs_view(refs@),
            stored == store.nodes(),
            defs_loaded(before, view, kind, stored, i as nat) == Some(deep(defs.map())),
        decreases refs@.len() - i,
    {
        assert(view[i as int] == refs@[i as int]@);
        let ghost here = defs_loaded(before, view, kind, stored, i as nat);
        if !defs.contains_key(refs[i].name.as_str()) {
            assert(here is Some);
            let hash = match parse_manifest_hash(&refs[i].hash) {
                Ok(h) => h,
                Err(e) => {
                    return Err(e);
                },
            };
            let node = match store.get_node(hash) {
                Ok(n) => n,
                Err(e) => {
                    assert(read_fails::<AirNode, S>(*store, ref_digest(view[i as int]), e));
                    return Err(load_error(kind.label(), e.message().as_str()));
                },
            };
            if node.kind != kind {
                return Err(
                    KernelError::Manifest(
                        join4("manifest ", word, " ref did not point to ", kind.label()),
                    ),
                );
            }
            proof {
                lemma_deep_insert(defs.map(), refs@[i as int].name@, node);
            }
            defs.insert(refs[i].name.clone(), node);
        }
        i += 1;
    }
    Ok(())
}

/// Whether one of the secrets has this name.
pub open spec fn has_secret(secrets: Seq<NodeTree>, name: Seq<char>) -> bool {
    exists|i: int| 0 <= i < secrets.len() && (#[trigger] secrets[i]).name == name
}

fn contains_secret(secrets: &Vec<AirNode>, name: &str) -> (r: bool)
    ensures
        r == has_secret(nodes_view(secrets@), name@),
{
    let ghost view = nodes_view(secrets@);
    let mut i: usize = 0;
    while i < secrets.len()
        invariant
            i <= secrets@.len(),
            view == nodes_view(secrets@),
            forall|k: int| 0 <= k < i ==> (#[trigger] view[k]).name != name@,
        decreases secrets@.len() - i,
    {
        assert(view[i as int].name == secrets@[i as int].name@);
        if str_eq(secrets[i].name.as_str(), name) {
            return true;
        }
        i += 1;
    }
    false
}

/// The secrets with those that the first `n` references point to, where they are missing.
pub open spec fn secrets_loaded(
    before: Seq<NodeTree>,
    refs: Seq<RefView>,
    stored: Map<Seq<u8>, NodeTree>,
    n: nat,
) -> Option<Seq<NodeTree>>
    decreases n,
{
    if n == 0 || n > refs.len() {
        Some(before)
    } else {
        match secrets_loaded(before, refs, stored, (n - 1) as nat) {
            None => None,
            Some(s) => {
                let h = ref_digest(refs[n - 1]);
                if has_secret(s, refs[n - 1].0) {
                    Some(s)
                } else if !all_zero(h) && stored.contains_key(h) && stored[h].kind
                    == NodeKind::Secret && named_secret(stored[h].name) is Ok {
                    Some(s.push(stored[h]))
                } else {
                    None
                }
            },
        }
    }
}

/// Whether `e` is a fault of loading secrets.
pub open spec fn secrets_load_failed<S: Store<AirNode>>(
    before: Seq<NodeTree>,
    refs: Seq<RefView>,
    store: S,
    e: KernelError,
) -> bool {
    let stored = store.nodes();
    exists|k: nat|
        k < refs.len() && match #[trigger] secrets_loaded(before, refs, stored, k) {
            None => false,
            Some(s) => {
                let r = refs[k as int];
                let h = ref_digest(r);
                &&& !has_secret(s, r.0)
                &&& if all_zero(h) {
                    is_manifest_error(e, missing_hash_fault(r.1))
                } else if !stored.contains_key(h) {
                    is_load_error(e, "secret"@, store, h)
                } else if stored[h].kind != NodeKind::Secret {
                    is_manifest_error(e, wrong_kind_fault("secret"@, "defsecret"@)) || is_load_error(
                        e,
                        "secret"@,
                        store,
                        h,
                    )
                } else {
                    match named_secret(stored[h].name) {
                        Err(t) => is_manifest_error(e, t) || is_load_error(e, "secret"@, store, h),
                        Ok(_) => is_load_error(e, "secret"@, store, h),
                    }
                }
            },
        }
}

fn load_secrets<S: Store<AirNode>>(store: &S, refs: &Vec<NamedRef>, secrets: &mut Vec<AirNode>) -> (r:
    Result<(), KernelError>)
    ensures
        match r {
            Ok(_) => secrets_loaded(
                nodes_view(old(secrets)@),
                refs_view(refs@),
                store.nodes(),
                refs@.len(),
            ) == Some(nodes_view(final(secrets)@)),
            Err(e) => secrets_load_failed(
                nodes_view(old(secrets)@),
                refs_view(refs@),
                *store,
                e,
            ),
        },
{
    let ghost before = nodes_view(secrets@);
    let ghost view = refs_view(refs@);
    let ghost stored = store.nodes();
    let mut i: usize = 0;
    while i < refs.len()
        invariant
            i <= refs@.len(),
            before == nodes_view(old(secrets)@),
            view == refs_view(refs@),
            stored == store.nodes(),
            secrets_loaded(before, view, stored, i as nat) == Some(nodes_view(secrets@)),
        decreases refs@.len() - i,
    {
        assert(view[i as int] == refs@[i as int]@);
        let ghost here = secrets_loaded(before, view, stored, i as nat);
        if !contains_secret(secrets, refs[i].name.as_str()) {
            assert(here is Some);
            let hash = match parse_manifest_hash(&refs[i].hash) {
                Ok(h) => h,
                Err(e) => {
                    return Err(e);
                },
            };
            let node = match store.get_node(hash) {
                Ok(n) => n,
                Err(e) => {
                    assert(read_fails::<AirNode, S>(*store, ref_digest(view[i as int]), e));
                    return Err(load_error("secret", e.message().as_str()));
                },
            };
            if node.kind != NodeKind::Secret {
                return Err(
                    KernelError::Manifest(
                        join4("manifest ", "secret", " ref did not point to ", "defsecret"),
                    ),
                );
            }
            match parse_secret_name(node.name.as_str()) {
                Ok(_) => {},
                Err(e) => {
                    return Err(e);
                },
            }
            let ghost sofar = nodes_view(secrets@);
            let ghost n = node@;
            secrets.push(node);
            assert(nodes_view(secrets@) =~= sofar.push(n));
        }
        i += 1;
    }
    Ok(())
}

/// The definitions that a patch brings or that are built in, of one kind.
pub open spec fn defs_at_hand(
    p: PatchView,
    refs: Seq<RefView>,
    items: Seq<crate::air::Builtin>,
    kind: NodeKind,
) -> Map<Seq<char>, NodeTree> {
    with_builtins(defs_of(p.nodes, kind, p.nodes.len()), items, Some(refs), items.len())
}

/// What a patch comes to when its missing definitions are read from a store; nothing where one
/// cannot be had. Without any operation, all built-in ones are taken.
pub open spec fn patch_loaded(
    p: PatchView,
    secrets: Seq<NodeTree>,
    builtins: Builtins,
    stored: Map<Seq<u8>, NodeTree>,
) -> Option<LoadedView> {
    let m = p.manifest;
    match (
        defs_loaded(
            defs_at_hand(p, m.schemas, builtins.schemas@, NodeKind::Schema),
            m.schemas,
            NodeKind::Schema,
            stored,
            m.schemas.len(),
        ),
        defs_loaded(
            defs_at_hand(p, m.modules, builtins.modules@, NodeKind::Module),
            m.modules,
            NodeKind::Module,
            stored,
            m.modules.len(),
        ),
        defs_loaded(
            defs_at_hand(p, m.ops, builtins.ops@, NodeKind::Op),
            m.ops,
            NodeKind::Op,
            stored,
            m.ops.len(),
        ),
        secrets_loaded(secrets, m.secrets, stored, m.secrets.len()),
    ) {
        (Some(schemas), Some(modules), Some(ops), Some(all_secrets)) => Some(
            LoadedView {
                manifest: m,
                secrets: all_secrets,
                modules,
                workflows: Map::empty(),
                ops: ops_or_builtin(ops, builtins),
                effects: Map::empty(),
                schemas,
                effect_catalog: ops_or_builtin(ops, builtins),
            },
        ),
        _ => None,
    }
}

/// The operations of a patch, or where it has none the built-in ones.
pub open spec fn ops_or_builtin(ops: Map<Seq<char>, NodeTree>, builtins: Builtins) -> Map<
    Seq<char>,
    NodeTree,
> {
    if ops == Map::<Seq<char>, NodeTree>::empty() {
        with_builtins(ops, builtins.ops@, None, builtins.ops@.len())
    } else {
        ops
    }
}

/// Whether `e` is a fault of reading the definitions of a patch from a store.
pub open spec fn patch_load_failed<S: Store<AirNode>>(
    p: PatchView,
    secrets: Seq<NodeTree>,
    builtins: Builtins,
    store: S,
    e: KernelError,
) -> bool {
    let m = p.manifest;
    let a = defs_at_hand(p, m.schemas, builtins.schemas@, NodeKind::Schema);
    let b = defs_at_hand(p, m.modules, builtins.modules@, NodeKind::Module);
    let c = defs_at_hand(p, m.ops, builtins.ops@, NodeKind::Op);
    ||| defs_load_failed(a, m.schemas, NodeKind::Schema, "schema"@, store, e)
    ||| defs_load_failed(b, m.modules, NodeKind::Module, "module"@, store, e)
    ||| defs_load_failed(c, m.ops, NodeKind::Op, "op"@, store, e)
    ||| secrets_load_failed(secrets, m.secrets, store, e)
}

proof fn lemma_empty_map(m: NameMap<AirNode>)
    ensures
        m.list().len() == 0 ==> deep(m.map()) == Map::<Seq<char>, NodeTree>::empty(),
        m.list().len() > 0 ==> deep(m.map()) != Map::<Seq<char>, NodeTree>::empty(),
{
    if m.list().len() == 0 {
        assert(deep(m.map()) =~= Map::<Seq<char>, NodeTree>::empty());
    } else {
        let n = m.list()[0].0@;
        crate::names::lemma_name_index(m.list(), n);
        assert(m.map().contains_key(n));
        assert(deep(m.map()).contains_key(n));
    }
}

impl ManifestPatch {
    /// The manifest of the patch with its definitions: those that the patch brings, the built-in
    /// ones that it refers to, and the rest from the store.
    pub fn to_loaded_manifest<S: Store<AirNode>>(&self, store: &S, builtins: &Builtins) -> (r: Result<
        LoadedManifest,
        KernelError,
    >)
        ensures
            match (secrets_of(self@.nodes, self@.nodes.len()), r) {
                (Err(t), Err(e)) => is_manifest_error(e, t),
                (Err(_), Ok(_)) => false,
                (Ok(s), Ok(m)) => patch_loaded(self@, s, *builtins, store.nodes()) == Some(m@),
                (Ok(s), Err(e)) => patch_load_failed(self@, s, *builtins, *store, e),
            },
    {
        let mut secrets = match collect_secrets(&self.nodes) {
            Ok(s) => s,
            Err(e) => {
                return Err(e);
            },
        };
        let mut modules = collect_defs(&self.nodes, NodeKind::Module);
        let mut ops = collect_defs(&self.nodes, NodeKind::Op);
        let mut schemas = collect_defs(&self.nodes, NodeKind::Schema);
        let manifest = self.manifest.copied();
        fill_builtins(&mut schemas, &builtins.schemas, Some(&self.manifest.schemas));
        fill_builtins(&mut ops, &builtins.ops, Some(&self.manifest.ops));
        fill_builtins(&mut modules, &builtins.modules, Some(&self.manifest.modules));
        match load_defs_from_manifest(
            store,
            &self.manifest.schemas,
            &mut schemas,
            NodeKind::Schema,
            "schema",
        ) {
            Ok(_) => {},
            Err(e) => {
                return Err(e);
            },
        }
        match load_defs_from_manifest(
            store,
            &self.manifest.modules,
            &mut modules,
            NodeKind::Module,
            "module",
        ) {
            Ok(_) => {},
            Err(e) => {
                return Err(e);
            },
        }
        match load_defs_from_manifest(store, &self.manifest.ops, &mut ops, NodeKind::Op, "op") {
            Ok(_) => {},
            Err(e) => {
                return Err(e);
            },
        }
        match load_secrets(store, &self.manifest.secrets, &mut secrets) {
            Ok(_) => {},
            Err(e) => {
                return Err(e);
            },
        }
        proof {
            lemma_empty_map(ops);
        }
        if ops.len() == 0 {
            fill_builtins(&mut ops, &builtins.ops, None);
        }
        let workflows: NameMap<AirNode> = NameMap::new();
        let effects: NameMap<AirNode> = NameMap::new();
        assert(deep(workflows.map()) =~= Map::empty());
        assert(deep(effects.map()) =~= Map::empty());
        let effect_catalog = EffectCatalog::from_effects(&ops);
        Ok(
            LoadedManifest {
                manifest,
                secrets,
                modules,
                workflows,
                ops,
                effects,
                schemas,
                effect_catalog,
            },
        )
    }
}

} // verus!
