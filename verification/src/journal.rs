//! The journal: everything that has happened to a world, in order.
use vstd::prelude::*;

use crate::bytes::copy_slice;
use crate::cbor::clone_bytes;
use crate::error::KernelError;
use crate::hash::HashRef;
use crate::receipts::ReceiptStatus;
use crate::shadow::summary::{ModuleEffectAllowlist, PendingWorkflowReceipt, PredictedEffect,
    WorkflowInstancePreview};
use crate::text::{decimal, decimal_text, join2, join4};

pub mod fs;
pub mod mem;

verus! {

/// The cursor of a journal entry.
pub type JournalSeq = u64;

/// The kind of a journal entry.
#[derive(Clone, Copy, Debug, PartialEq, Eq, Structural)]
pub enum JournalKind {
    DomainEvent,
    EffectIntent,
    EffectReceipt,
    StreamFrame,
    Manifest,
    Snapshot,
    PolicyDecision,
    Governance,
    PlanStarted,
    PlanResult,
    PlanEnded,
    Custom,
}

impl JournalKind {
    pub open spec fn name(self) -> Seq<char> {
        match self {
            JournalKind::DomainEvent => "domain_event"@,
            JournalKind::EffectIntent => "effect_intent"@,
            JournalKind::EffectReceipt => "effect_receipt"@,
            JournalKind::StreamFrame => "stream_frame"@,
            JournalKind::Manifest => "manifest"@,
            JournalKind::Snapshot => "snapshot"@,
            JournalKind::PolicyDecision => "policy_decision"@,
            JournalKind::Governance => "governance"@,
            JournalKind::PlanStarted => "plan_started"@,
            JournalKind::PlanResult => "plan_result"@,
            JournalKind::PlanEnded => "plan_ended"@,
            JournalKind::Custom => "custom"@,
        }
    }

    /// The word for the kind in stored entries.
    pub fn label(self) -> (r: &'static str)
        ensures
            r@ == self.name(),
    {
        match self {
            JournalKind::DomainEvent => "domain_event",
            JournalKind::EffectIntent => "effect_intent",
            JournalKind::EffectReceipt => "effect_receipt",
            JournalKind::StreamFrame => "stream_frame",
            JournalKind::Manifest => "manifest",
            JournalKind::Snapshot => "snapshot",
            JournalKind::PolicyDecision => "policy_decision",
            JournalKind::Governance => "governance",
            JournalKind::PlanStarted => "plan_started",
            JournalKind::PlanResult => "plan_result",
            JournalKind::PlanEnded => "plan_ended",
            JournalKind::Custom => "custom",
        }
    }
}

/// What a journal entry records.
#[derive(Debug, PartialEq, Eq)]
pub enum JournalRecord {
    DomainEvent(DomainEventRecord),
    EffectIntent(EffectIntentRecord),
    EffectReceipt(EffectReceiptRecord),
    StreamFrame(StreamFrameRecord),
    Manifest(ManifestRecord),
    Snapshot(SnapshotRecord),
    PolicyDecision(PolicyDecisionRecord),
    Governance(GovernanceRecord),
    PlanStarted(PlanStartedRecord),
    PlanResult(PlanResultRecord),
    PlanEnded(PlanEndedRecord),
    Custom(CustomRecord),
}

impl JournalRecord {
    pub open spec fn kind_of(self) -> JournalKind {
        match self {
            JournalRecord::DomainEvent(_) => JournalKind::DomainEvent,
            JournalRecord::EffectIntent(_) => JournalKind::EffectIntent,
            JournalRecord::EffectReceipt(_) => JournalKind::EffectReceipt,
            JournalRecord::StreamFrame(_) => JournalKind::StreamFrame,
            JournalRecord::Manifest(_) => JournalKind::Manifest,
            JournalRecord::Snapshot(_) => JournalKind::Snapshot,
            JournalRecord::PolicyDecision(_) => JournalKind::PolicyDecision,
            JournalRecord::Governance(_) => JournalKind::Governance,
            JournalRecord::PlanStarted(_) => JournalKind::PlanStarted,
            JournalRecord::PlanResult(_) => JournalKind::PlanResult,
            JournalRecord::PlanEnded(_) => JournalKind::PlanEnded,
            JournalRecord::Custom(_) => JournalKind::Custom,
        }
    }

    pub fn kind(&self) -> (r: JournalKind)
        ensures
            r == self.kind_of(),
    {
        match self {
            JournalRecord::DomainEvent(_) => JournalKind::DomainEvent,
            JournalRecord::EffectIntent(_) => JournalKind::EffectIntent,
            JournalRecord::EffectReceipt(_) => JournalKind::EffectReceipt,
            JournalRecord::StreamFrame(_) => JournalKind::StreamFrame,
            JournalRecord::Manifest(_) => JournalKind::Manifest,
            JournalRecord::Snapshot(_) => JournalKind::Snapshot,
            JournalRecord::PolicyDecision(_) => JournalKind::PolicyDecision,
            JournalRecord::Governance(_) => JournalKind::Governance,
            JournalRecord::PlanStarted(_) => JournalKind::PlanStarted,
            JournalRecord::PlanResult(_) => JournalKind::PlanResult,
            JournalRecord::PlanEnded(_) => JournalKind::PlanEnded,
            JournalRecord::Custom(_) => JournalKind::Custom,
        }
    }
}

#[derive(Clone, Copy, Debug, PartialEq, Eq, Structural)]
pub enum PlanEndStatus {
    Success,
    Error,
}

#[derive(Debug, PartialEq, Eq)]
pub struct PlanEndedRecord {
    pub plan_name: String,
    pub plan_id: u64,
    pub status: PlanEndStatus,
    pub error_code: Option<String>,
}

#[derive(Debug, PartialEq, Eq)]
pub struct PlanStartedRecord {
    pub plan_name: String,
    pub plan_id: u64,
    pub input_hash: String,
    pub parent_instance_id: Option<u64>,
}

#[derive(Debug, PartialEq, Eq)]
pub struct DomainEventRecord {
    pub schema: String,
    pub value: Vec<u8>,
    pub key: Option<Vec<u8>>,
    pub now_ns: u64,
    pub logical_now_ns: u64,
    pub journal_height: u64,
    pub entropy: Vec<u8>,
    pub event_hash: String,
    pub manifest_hash: String,
}

#[derive(Debug, PartialEq, Eq)]
pub struct EffectIntentRecord {
    pub intent_hash: [u8; 32],
    pub effect_op: String,
    pub effect_op_hash: Option<String>,
    pub executor_module: Option<String>,
    pub executor_module_hash: Option<String>,
    pub executor_entrypoint: Option<String>,
    pub kind: String,
    pub cap_name: String,
    pub params_cbor: Vec<u8>,
    pub params_ref: Option<HashRef>,
    pub params_size: Option<u64>,
    pub params_sha256: Option<HashRef>,
    pub idempotency_key: [u8; 32],
    pub origin: IntentOriginRecord,
}

/// Who asked for an effect.
#[allow(inconsistent_fields)]
#[derive(Debug, PartialEq, Eq)]
pub enum IntentOriginRecord {
    Workflow {
        name: String,
        workflow_op_hash: Option<String>,
        instance_key: Option<Vec<u8>>,
        issuer_ref: Option<String>,
        emitted_at_seq: Option<u64>,
    },
    Reducer { name: String },
    Plan { name: String, plan_id: u64 },
}

#[derive(Debug, PartialEq, Eq)]
pub struct EffectReceiptRecord {
    pub intent_hash: [u8; 32],
    pub adapter_id: String,
    pub status: ReceiptStatus,
    pub payload_cbor: Vec<u8>,
    pub payload_ref: Option<HashRef>,
    pub payload_size: Option<u64>,
    pub payload_sha256: Option<HashRef>,
    pub cost_cents: Option<u64>,
    pub signature: Vec<u8>,
    pub now_ns: u64,
    pub logical_now_ns: u64,
    pub journal_height: u64,
    pub entropy: Vec<u8>,
    pub manifest_hash: String,
}

#[derive(Debug, PartialEq, Eq)]
pub struct StreamFrameRecord {
    pub intent_hash: [u8; 32],
    pub adapter_id: String,
    pub origin_module_id: String,
    pub origin_workflow_op_hash: Option<String>,
    pub origin_instance_key: Option<Vec<u8>>,
    pub effect_op: String,
    pub effect_op_hash: Option<String>,
    pub executor_module: Option<String>,
    pub executor_module_hash: Option<String>,
    pub executor_entrypoint: Option<String>,
    pub emitted_at_seq: u64,
    pub seq: u64,
    pub frame_kind: String,
    pub payload_cbor: Vec<u8>,
    pub payload_ref: Option<String>,
    pub signature: Vec<u8>,
    pub now_ns: u64,
    pub logical_now_ns: u64,
    pub journal_height: u64,
    pub entropy: Vec<u8>,
    pub manifest_hash: String,
}

#[derive(Debug, PartialEq, Eq)]
pub struct PlanResultRecord {
    pub plan_name: String,
    pub plan_id: u64,
    pub output_schema: String,
    pub value_cbor: Vec<u8>,
}

#[derive(Debug, PartialEq, Eq)]
pub struct PolicyDecisionRecord {
    pub intent_hash: [u8; 32],
    pub policy_name: String,
    pub rule_index: Option<u32>,
    pub decision: PolicyDecisionOutcome,
}

#[derive(Clone, Copy, Debug, PartialEq, Eq, Structural)]
pub enum PolicyDecisionOutcome {
    Allow,
    Deny,
}

#[derive(Debug, PartialEq, Eq)]
pub struct SnapshotRecord {
    /// The digest of the snapshot, as text.
    pub snapshot_ref: String,
    /// The number of events that the snapshot covers.
    pub height: JournalSeq,
    /// The universe that the world belongs to.
    pub universe_id: [u8; 16],
    /// The logical time of the snapshot.
    pub logical_time_ns: u64,
    /// The height up to which receipts are in the snapshot.
    pub receipt_horizon_height: Option<JournalSeq>,
    pub manifest_hash: Option<String>,
}

#[derive(Debug, PartialEq, Eq)]
pub struct ManifestRecord {
    pub manifest_hash: String,
}

#[derive(Debug, PartialEq, Eq)]
pub enum GovernanceRecord {
    Proposed(ProposedRecord),
    ShadowReport(ShadowReportRecord),
    Approved(ApprovedRecord),
    Applied(AppliedRecord),
}

#[derive(Debug, PartialEq, Eq)]
pub struct ProposedRecord {
    pub proposal_id: u64,
    pub description: Option<String>,
    pub patch_hash: String,
}

#[derive(Debug, PartialEq, Eq)]
pub struct ShadowReportRecord {
    pub proposal_id: u64,
    pub patch_hash: String,
    pub manifest_hash: String,
    pub effects_predicted: Vec<PredictedEffect>,
    pub pending_workflow_receipts: Vec<PendingWorkflowReceipt>,
    pub workflow_instances: Vec<WorkflowInstancePreview>,
    pub module_effect_allowlists: Vec<ModuleEffectAllowlist>,
}

#[derive(Clone, Copy, Debug, PartialEq, Eq, Structural)]
pub enum ApprovalDecisionRecord {
    Approve,
    Reject,
}

impl ApprovalDecisionRecord {
    /// The decision, where a record names none.
    pub fn default_approve() -> (r: Self)
        ensures
            r == ApprovalDecisionRecord::Approve,
    {
        ApprovalDecisionRecord::Approve
    }
}

#[derive(Debug, PartialEq, Eq)]
pub struct ApprovedRecord {
    pub proposal_id: u64,
    pub patch_hash: String,
    pub approver: String,
    pub decision: ApprovalDecisionRecord,
}

#[derive(Debug, PartialEq, Eq)]
pub struct AppliedRecord {
    pub proposal_id: u64,
    pub patch_hash: String,
    pub manifest_hash_new: String,
}

#[derive(Debug, PartialEq, Eq)]
pub struct CustomRecord {
    pub tag: String,
    pub data: Vec<u8>,
}

/// An entry to be appended.
#[derive(Clone, Copy, Debug)]
pub struct JournalEntry<'a> {
    pub kind: JournalKind,
    pub payload: &'a [u8],
}

impl<'a> JournalEntry<'a> {
    pub fn new(kind: JournalKind, payload: &'a [u8]) -> (r: Self)
        ensures
            r.kind == kind,
            r.payload == payload,
    {
        JournalEntry { kind, payload }
    }
}

/// An entry of a journal.
#[derive(Debug, PartialEq, Eq)]
pub struct OwnedJournalEntry {
    pub seq: JournalSeq,
    pub kind: JournalKind,
    pub payload: Vec<u8>,
}

/// The model of an entry.
pub struct EntryModel {
    pub seq: u64,
    pub kind: JournalKind,
    pub payload: Seq<u8>,
}

impl View for OwnedJournalEntry {
    type V = EntryModel;

    open spec fn view(&self) -> EntryModel {
        EntryModel { seq: self.seq, kind: self.kind, payload: self.payload@ }
    }
}

impl OwnedJournalEntry {
    pub fn into_payload(self) -> (r: Vec<u8>)
        ensures
            r == self.payload,
    {
        self.payload
    }

    pub fn from_disk(seq: JournalSeq, kind: JournalKind, payload: Vec<u8>) -> (r: Self)
        ensures
            r@ == (EntryModel { seq, kind, payload: payload@ }),
    {
        OwnedJournalEntry { seq, kind, payload }
    }

    /// A copy of the entry.
    pub fn copied(&self) -> (r: Self)
        ensures
            r@ == self@,
    {
        OwnedJournalEntry { seq: self.seq, kind: self.kind, payload: clone_bytes(&self.payload) }
    }
}

/// The models of entries.
pub open spec fn entries_view(entries: Seq<OwnedJournalEntry>) -> Seq<EntryModel> {
    Seq::new(entries.len(), |i: int| entries[i]@)
}

/// What can go wrong in a journal.
#[derive(Debug, PartialEq, Eq)]
pub enum JournalError {
    Io(String),
    Cbor(String),
    Corrupt(String),
}

/// The model of a journal error.
pub enum JournalFault {
    Io(Seq<char>),
    Cbor(Seq<char>),
    Corrupt(Seq<char>),
}

impl View for JournalError {
    type V = JournalFault;

    open spec fn view(&self) -> JournalFault {
        match *self {
            JournalError::Io(m) => JournalFault::Io(m@),
            JournalError::Cbor(m) => JournalFault::Cbor(m@),
            JournalError::Corrupt(m) => JournalFault::Corrupt(m@),
        }
    }
}

impl JournalError {
    /// The wording of the error.
    pub open spec fn text(self) -> Seq<char> {
        match self {
            JournalError::Io(m) => "I/O error: "@ + m@,
            JournalError::Cbor(m) => "serialization error: "@ + m@,
            JournalError::Corrupt(m) => "corrupt entry: "@ + m@,
        }
    }

    pub fn message(&self) -> (r: String)
        ensures
            r@ == self.text(),
    {
        match self {
            JournalError::Io(m) => join2("I/O error: ", m.as_str()),
            JournalError::Cbor(m) => join2("serialization error: ", m.as_str()),
            JournalError::Corrupt(m) => join2("corrupt entry: ", m.as_str()),
        }
    }

    /// The error as one of the kernel.
    pub fn into_kernel(self) -> (r: KernelError)
        ensures
            r matches KernelError::Journal(m) && m@ == self.text(),
    {
        KernelError::Journal(self.message())
    }
}

/// The cursors between which a journal holds entries.
#[derive(Clone, Copy, Debug, PartialEq, Eq, Structural)]
pub struct JournalBounds {
    pub retained_from: JournalSeq,
    pub next_seq: JournalSeq,
}

/// A journal in memory that may have dropped a prefix of its entries.
#[derive(Debug)]
pub struct Journal {
    retained_from: JournalSeq,
    entries: Vec<OwnedJournalEntry>,
}

/// The model of a journal.
#[verifier::ext_equal]
pub struct JournalState {
    pub retained_from: u64,
    pub entries: Seq<EntryModel>,
}

impl JournalState {
    /// The cursor of the next entry.
    pub open spec fn next_seq(self) -> int {
        self.retained_from + self.entries.len()
    }

    /// Whether the entries have the cursors from `retained_from` on, without a gap.
    pub open spec fn contiguous(self) -> bool {
        forall|i: int|
            0 <= i < self.entries.len() ==> (#[trigger] self.entries[i]).seq == self.retained_from
                + i
    }

    /// The entries from a cursor on.
    pub open spec fn from_seq(self, from: u64) -> Seq<EntryModel> {
        let start = if from <= self.retained_from {
            0
        } else {
            from - self.retained_from
        };
        if start >= self.entries.len() {
            Seq::empty()
        } else {
            self.entries.skip(start)
        }
    }

    /// The journal with one more entry.
    pub open spec fn appended(self, kind: JournalKind, payload: Seq<u8>) -> JournalState {
        JournalState {
            entries: self.entries.push(
                EntryModel { seq: self.next_seq() as u64, kind, payload },
            ),
            ..self
        }
    }

    /// The journal with more entries, in order.
    pub open spec fn extended(self, more: Seq<JournalEntry>, n: nat) -> JournalState
        decreases n,
    {
        if n == 0 || n > more.len() {
            self
        } else {
            let before = self.extended(more, (n - 1) as nat);
            before.appended(more[n - 1].kind, more[n - 1].payload@)
        }
    }

    /// The journal without the entries up to and including a cursor.
    pub open spec fn compacted(self, upto: u64) -> JournalState {
        let target = if upto + 1 <= self.retained_from {
            self.retained_from as int
        } else if upto + 1 >= self.next_seq() {
            self.next_seq()
        } else {
            upto + 1
        };
        JournalState {
            retained_from: target as u64,
            entries: self.entries.skip(target - self.retained_from),
        }
    }
}

/// The cursor that the entry at position `i` must have.
pub open spec fn due_seq(first: u64, i: int) -> u64 {
    if first + i <= u64::MAX {
        (first + i) as u64
    } else {
        u64::MAX
    }
}

/// The error of a gap.
pub open spec fn gap_fault(expected: u64, found: u64) -> JournalFault {
    JournalFault::Corrupt(
        "journal sequence is not contiguous: expected "@ + decimal(expected as nat) + ", got "@
            + decimal(found as nat),
    )
}

/// The first position among the first `n` where an entry does not have the cursor that is due.
pub open spec fn first_gap(entries: Seq<EntryModel>, n: nat) -> Option<int>
    decreases n,
{
    if n == 0 || n > entries.len() {
        None
    } else {
        match first_gap(entries, (n - 1) as nat) {
            Some(i) => Some(i),
            None => if entries[n - 1].seq != due_seq(entries[0].seq, n - 1) {
                Some(n - 1)
            } else {
                None
            },
        }
    }
}

proof fn lemma_gap_stands(entries: Seq<EntryModel>, k: nat, n: nat)
    requires
        k <= n <= entries.len(),
        first_gap(entries, k) is Some,
    ensures
        first_gap(entries, n) == first_gap(entries, k),
    decreases n,
{
    if k < n {
        lemma_gap_stands(entries, k, (n - 1) as nat);
    }
}

fn copy_entries(entries: &Vec<OwnedJournalEntry>, from: usize, to: usize) -> (r: Vec<
    OwnedJournalEntry,
>)
    requires
        from <= to <= entries@.len(),
    ensures
        entries_view(r@) == entries_view(entries@).subrange(from as int, to as int),
{
    let mut out: Vec<OwnedJournalEntry> = Vec::new();
    let mut i: usize = from;
    while i < to
        invariant
            from <= i <= to <= entries@.len(),
            out@.len() == i - from,
            forall|k: int| 0 <= k < out@.len() ==> (#[trigger] out@[k])@ == entries@[from + k]@,
        decreases to - i,
    {
        out.push(entries[i].copied());
        i += 1;
    }
    assert(entries_view(out@) =~= entries_view(entries@).subrange(from as int, to as int));
    out
}

impl View for Journal {
    type V = JournalState;

    closed spec fn view(&self) -> JournalState {
        JournalState { retained_from: self.retained_from, entries: entries_view(self.entries@) }
    }
}

impl Journal {
    pub fn new() -> (r: Self)
        ensures
            r@ == (JournalState { retained_from: 0, entries: Seq::empty() }),
            r@.contiguous(),
    {
        Self::with_retained_from(0)
    }

    /// An empty journal whose next entry has the given cursor.
    pub fn with_retained_from(retained_from: JournalSeq) -> (r: Self)
        ensures
            r@ == (JournalState { retained_from, entries: Seq::empty() }),
            r@.contiguous(),
    {
        let r = Journal { retained_from, entries: Vec::new() };
        assert(entries_view(r.entries@) =~= Seq::empty());
        r
    }

    /// The journal made of the given entries, whose cursors must follow on each other.
    pub fn from_entries(entries: &Vec<OwnedJournalEntry>) -> (r: Result<Self, JournalError>)
        ensures
            match (r, first_gap(entries_view(entries@), entries@.len())) {
                (Ok(j), None) => j@ == (JournalState {
                    retained_from: if entries@.len() == 0 {
                        0
                    } else {
                        entries@[0].seq
                    },
                    entries: entries_view(entries@),
                }),
                (Err(e), Some(i)) => e@ == gap_fault(
                    due_seq(entries@[0].seq, i),
                    entries@[i].seq,
                ),
                _ => false,
            },
    {
        if entries.len() == 0 {
            assert(entries_view(entries@) =~= Seq::empty());
            return Ok(Self::new());
        }
        let ghost view = entries_view(entries@);
        let retained_from: u64 = entries[0].seq;
        let mut expected: u64 = retained_from;
        let mut i: usize = 0;
        while i < entries.len()
            invariant
                i <= entries@.len(),
                0 < entries@.len(),
                view == entries_view(entries@),
                retained_from == entries@[0].seq,
                expected == due_seq(retained_from, i as int),
                first_gap(view, i as nat) is None,
            decreases entries@.len() - i,
        {
            assert(view[i as int] == entries@[i as int]@);
            assert(view[0] == entries@[0]@);
            if entries[i].seq != expected {
                proof {
                    lemma_gap_stands(view, (i + 1) as nat, view.len());
                }
                return Err(
                    JournalError::Corrupt(
                        join4(
                            "journal sequence is not contiguous: expected ",
                            decimal_text(expected).as_str(),
                            ", got ",
                            decimal_text(entries[i].seq).as_str(),
                        ),
                    ),
                );
            }
            expected = expected.saturating_add(1);
            i += 1;
        }
        let all = copy_entries(entries, 0, entries.len());
        assert(view.subrange(0, view.len() as int) =~= view);
        Ok(Journal { retained_from, entries: all })
    }

    /// Appends an entry and returns its cursor.
    pub fn append(&mut self, entry: JournalEntry<'_>) -> (r: Result<JournalSeq, JournalError>)
        requires
            old(self)@.next_seq() < u64::MAX,
        ensures
            r == Ok::<u64, JournalError>(old(self)@.next_seq() as u64),
            final(self)@ == old(self)@.appended(entry.kind, entry.payload@),
            old(self)@.contiguous() ==> final(self)@.contiguous(),
    {
        let ghost before = self@;
        let seq: u64 = self.next_seq();
        let payload = copy_slice(entry.payload);
        self.entries.push(OwnedJournalEntry { seq, kind: entry.kind, payload });
        assert(self@.entries =~= before.appended(entry.kind, entry.payload@).entries);
        Ok(seq)
    }

    /// Appends entries in order and returns the cursor of the first.
    pub fn append_batch(&mut self, entries: &Vec<JournalEntry<'_>>) -> (r: Result<
        JournalSeq,
        JournalError,
    >)
        requires
            old(self)@.next_seq() + entries@.len() <= u64::MAX,
        ensures
            r == Ok::<u64, JournalError>(old(self)@.next_seq() as u64),
            final(self)@ == old(self)@.extended(entries@, entries@.len()),
            old(self)@.contiguous() ==> final(self)@.contiguous(),
    {
        let first_seq: u64 = self.next_seq();
        let ghost before = self@;
        let mut i: usize = 0;
        while i < entries.len()
            invariant
                i <= entries@.len(),
                before == old(self)@,
                self@ == before.extended(entries@, i as nat),
                self@.next_seq() == before.next_seq() + i,
                before.next_seq() + entries@.len() <= u64::MAX,
                before.contiguous() ==> self@.contiguous(),
            decreases entries@.len() - i,
        {
            match self.append(entries[i]) {
                Ok(_) => {},
                Err(e) => {
                    return Err(e);
                },
            }
            i += 1;
        }
        Ok(first_seq)
    }

    /// The entries from a cursor on; from the first one that is left, where the cursor is older.
    pub fn load_from(&self, from: JournalSeq) -> (r: Result<Vec<OwnedJournalEntry>, JournalError>)
        ensures
            r matches Ok(v) && entries_view(v@) == self@.from_seq(from),
    {
        Ok(self.collect_from(from, None))
    }

    /// At most `limit` entries from a cursor on.
    pub fn load_batch_from(&self, from: JournalSeq, limit: usize) -> (r: Result<
        Vec<OwnedJournalEntry>,
        JournalError,
    >)
        ensures
            r matches Ok(v) && entries_view(v@) == first_of(self@.from_seq(from), limit as nat),
    {
        Ok(self.collect_from(from, Some(limit)))
    }

    fn collect_from(&self, from: JournalSeq, limit: Option<usize>) -> (r: Vec<OwnedJournalEntry>)
        ensures
            entries_view(r@) == match limit {
                None => self@.from_seq(from),
                Some(n) => first_of(self@.from_seq(from), n as nat),
            },
    {
        let n: usize = self.entries.len();
        let start: u64 = if from <= self.retained_from {
            0
        } else {
            from - self.retained_from
        };
        if start >= n as u64 {
            let out: Vec<OwnedJournalEntry> = Vec::new();
            assert(entries_view(out@) =~= Seq::empty());
            assert(first_of(Seq::<EntryModel>::empty(), match limit {
                Some(k) => k as nat,
                None => 0,
            }) =~= Seq::empty());
            return out;
        }
        let s: usize = start as usize;
        let take: usize = match limit {
            None => n - s,
            Some(k) => if k < n - s {
                k
            } else {
                n - s
            },
        };
        let r = copy_entries(&self.entries, s, s + take);
        assert(entries_view(r@) =~= first_of(self@.from_seq(from), take as nat));
        proof {
            let all = self@.from_seq(from);
            assert(first_of(all, all.len()) =~= all);
            if let Some(k) = limit {
                assert(first_of(all, k as nat) =~= first_of(all, take as nat));
            }
        }
        r
    }

    /// The cursor of the next entry.
    pub fn next_seq(&self) -> (r: JournalSeq)
        requires
            self@.next_seq() <= u64::MAX,
        ensures
            r == self@.next_seq(),
    {
        self.retained_from + self.entries.len() as u64
    }

    pub fn bounds(&self) -> (r: JournalBounds)
        requires
            self@.next_seq() <= u64::MAX,
        ensures
            r.retained_from == self@.retained_from,
            r.next_seq == self@.next_seq(),
    {
        JournalBounds { retained_from: self.retained_from, next_seq: self.next_seq() }
    }

    /// Drops the entries up to and including a cursor. The cursors of the others stay.
    pub fn compact_through(&mut self, inclusive_seq: JournalSeq) -> (r: Result<(), JournalError>)
        requires
            old(self)@.next_seq() <= u64::MAX,
        ensures
            r is Ok,
            final(self)@ == old(self)@.compacted(inclusive_seq),
            old(self)@.contiguous() ==> final(self)@.contiguous(),
            final(self)@.next_seq() == old(self)@.next_seq(),
    {
        let ghost before = self@;
        let next: u64 = self.next_seq();
        let after: u64 = inclusive_seq.saturating_add(1);
        let target: u64 = if after < self.retained_from {
            self.retained_from
        } else if after > next {
            next
        } else {
            after
        };
        let drop: usize = (target - self.retained_from) as usize;
        let n: usize = self.entries.len();
        let rest = copy_entries(&self.entries, drop, n);
        self.entries = rest;
        self.retained_from = target;
        proof {
            assert(self@.entries =~= before.compacted(inclusive_seq).entries);
            assert forall|i: int| before.contiguous() && 0 <= i < self@.entries.len() implies (
            #[trigger] self@.entries[i]).seq == self@.retained_from + i by {
                assert(self@.entries[i] == before.entries[i + drop]);
            }
        }
        Ok(())
    }
}

/// The first `n` entries, or all where there are fewer.
pub open spec fn first_of(entries: Seq<EntryModel>, n: nat) -> Seq<EntryModel> {
    if n >= entries.len() {
        entries
    } else {
        entries.take(n as int)
    }
}

/// An appended entry is the last one that is loaded, and the entries before it are loaded as
/// before.
pub proof fn lemma_appended_is_loaded(
    j: JournalState,
    kind: JournalKind,
    payload: Seq<u8>,
    from: u64,
)
    requires
        j.next_seq() < u64::MAX,
        from <= j.next_seq(),
    ensures
        j.appended(kind, payload).from_seq(from) == j.from_seq(from).push(
            EntryModel { seq: j.next_seq() as u64, kind, payload },
        ),
{
    let after = j.appended(kind, payload);
    assert(after.from_seq(from) =~= j.from_seq(from).push(
        EntryModel { seq: j.next_seq() as u64, kind, payload },
    ));
}

/// Loading from a cursor gives exactly the entries that are left with that cursor or a later one.
pub proof fn lemma_load_is_by_cursor(j: JournalState, from: u64)
    requires
        j.contiguous(),
    ensures
        forall|e: EntryModel| #[trigger]
            j.from_seq(from).contains(e) <==> j.entries.contains(e) && e.seq >= from,
{
    let loaded = j.from_seq(from);
    let start = if from <= j.retained_from {
        0
    } else {
        from - j.retained_from
    };
    assert forall|e: EntryModel| #[trigger] loaded.contains(e) <==> j.entries.contains(e) && e.seq
        >= from by {
        if loaded.contains(e) {
            let i = choose|i: int| 0 <= i < loaded.len() && loaded[i] == e;
            assert(j.entries[i + start] == e);
        }
        if j.entries.contains(e) && e.seq >= from {
            let i = choose|i: int| 0 <= i < j.entries.len() && j.entries[i] == e;
            assert(j.entries[i].seq == j.retained_from + i);
            assert(loaded[i - start] == e);
        }
    }
}

/// After a compaction nothing up to the cursor is loaded, and everything after it still is.
pub proof fn lemma_compaction_keeps_the_rest(j: JournalState, upto: u64, from: u64)
    requires
        j.contiguous(),
        j.next_seq() <= u64::MAX,
        from > upto,
    ensures
        j.compacted(upto).from_seq(from) == j.from_seq(from),
        forall|i: int|
            0 <= i < j.compacted(upto).entries.len() ==> (#[trigger] j.compacted(
                upto,
            ).entries[i]).seq > upto,
{
    let after = j.compacted(upto);
    assert(after.from_seq(from) =~= j.from_seq(from));
    assert forall|i: int| 0 <= i < after.entries.len() implies (#[trigger] after.entries[i]).seq
        > upto by {
        let k = i + (after.retained_from - j.retained_from);
        assert(after.entries[i] == j.entries[k]);
        assert(j.entries[k].seq == j.retained_from + k);
    }
}
/// Entries follow on each other without a gap if and only if each has the cursor that is due; else
/// the first that has not is found.
pub proof fn lemma_gap_is_the_first(entries: Seq<EntryModel>, n: nat)
    requires
        n <= entries.len(),
        n > 0 ==> entries[0].seq + n <= u64::MAX,
    ensures
        first_gap(entries, n) is None <==> forall|i: int|
            0 <= i < n ==> (#[trigger] entries[i]).seq == entries[0].seq + i,
        first_gap(entries, n) matches Some(i) ==> {
            &&& 0 <= i < n
            &&& entries[i].seq != entries[0].seq + i
            &&& forall|j: int| 0 <= j < i ==> (#[trigger] entries[j]).seq == entries[0].seq + j
        },
    decreases n,
{
    if n > 0 {
        lemma_gap_is_the_first(entries, (n - 1) as nat);
    }
}

/// Entries that are appended together come after those that were there, in their order, with the
/// cursors that follow.
pub proof fn lemma_batch_is_appended_in_order(j: JournalState, more: Seq<JournalEntry>, n: nat)
    requires
        n <= more.len(),
        j.next_seq() + n <= u64::MAX,
    ensures
        ({
            let after = j.extended(more, n);
            &&& after.retained_from == j.retained_from
            &&& after.entries.len() == j.entries.len() + n
            &&& forall|i: int| 0 <= i < j.entries.len() ==> after.entries[i] == j.entries[i]
            &&& forall|i: int|
                0 <= i < n ==> {
                    let e = after.entries[j.entries.len() + i];
                    &&& e.seq == j.next_seq() + i
                    &&& e.kind == (#[trigger] more[i]).kind
                    &&& e.payload == more[i].payload@
                }
        }),
    decreases n,
{
    if n > 0 {
        lemma_batch_is_appended_in_order(j, more, (n - 1) as nat);
        let before = j.extended(more, (n - 1) as nat);
        let after = j.extended(more, n);
        assert forall|i: int| 0 <= i < n implies {
            let e = after.entries[j.entries.len() + i];
            &&& e.seq == j.next_seq() + i
            &&& e.kind == (#[trigger] more[i]).kind
            &&& e.payload == more[i].payload@
        } by {
            if i < n - 1 {
                assert(after.entries[j.entries.len() + i] == before.entries[j.entries.len() + i]);
            }
        }
    }
}

/// A batch is the start of what there is to load: as many entries as are asked for, or all.
pub proof fn lemma_batch_is_the_start(entries: Seq<EntryModel>, n: nat)
    ensures
        first_of(entries, n).len() <= n,
        first_of(entries, n).len() == n || first_of(entries, n) == entries,
        forall|i: int| 0 <= i < first_of(entries, n).len() ==> first_of(entries, n)[i] == entries[i],
{
}


} // verus!
