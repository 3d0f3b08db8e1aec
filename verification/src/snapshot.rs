//! What a snapshot keeps of the kernel.
use std::collections::VecDeque;
use vstd::prelude::*;

use crate::bytes::bytes_eq;
use crate::cbor::clone_bytes;
use crate::effects::{EffectIntent, IntentView};
use crate::journal::JournalSeq;
use crate::receipts::{bytes_option, copy_bytes_option, ReducerEffectContext};
use crate::text::copy_option;

verus! {

/// The state of a cell.
#[derive(Debug)]
pub struct ReducerStateEntry {
    pub reducer: String,
    pub key: Option<Vec<u8>>,
    pub state: Vec<u8>,
    pub state_hash: [u8; 32],
    pub last_active_ns: u64,
}

/// The roots that a snapshot must be able to reach.
#[derive(Debug)]
pub struct SnapshotRootCompleteness {
    pub manifest_hash: Option<Vec<u8>>,
    pub reducer_state_roots: Vec<[u8; 32]>,
    pub cell_index_roots: Vec<[u8; 32]>,
    pub workspace_roots: Vec<[u8; 32]>,
    pub pinned_roots: Vec<[u8; 32]>,
}

impl SnapshotRootCompleteness {
    /// No roots.
    pub open spec fn is_empty(&self) -> bool {
        &&& self.manifest_hash is None
        &&& self.reducer_state_roots@.len() == 0
        &&& self.cell_index_roots@.len() == 0
        &&& self.workspace_roots@.len() == 0
        &&& self.pinned_roots@.len() == 0
    }

    pub fn none() -> (r: Self)
        ensures
            r.is_empty(),
    {
        SnapshotRootCompleteness {
            manifest_hash: None,
            reducer_state_roots: Vec::new(),
            cell_index_roots: Vec::new(),
            workspace_roots: Vec::new(),
            pinned_roots: Vec::new(),
        }
    }
}

/// An intent that waits.
#[derive(Debug)]
pub struct EffectIntentSnapshot {
    pub intent_hash: [u8; 32],
    pub kind: String,
    pub cap_name: String,
    pub params_cbor: Vec<u8>,
    pub idempotency_key: [u8; 32],
}

impl EffectIntentSnapshot {
    /// The intent that the snapshot stands for. It does not say what runs the effect.
    pub open spec fn intent(&self) -> IntentView {
        IntentView {
            kind: self.kind@,
            cap_name: self.cap_name@,
            identity: None,
            params: self.params_cbor@,
            idempotency_key: self.idempotency_key@,
            intent_hash: self.intent_hash@,
        }
    }

    pub fn from_intent(intent: &EffectIntent) -> (r: Self)
        ensures
            r.intent() == (IntentView { identity: None, ..intent@ }),
    {
        EffectIntentSnapshot {
            intent_hash: intent.intent_hash,
            kind: intent.kind.clone(),
            cap_name: intent.cap_name.clone(),
            params_cbor: clone_bytes(&intent.params_cbor),
            idempotency_key: intent.idempotency_key,
        }
    }

    pub fn into_intent(self) -> (r: EffectIntent)
        ensures
            r@ == self.intent(),
    {
        EffectIntent {
            kind: self.kind,
            cap_name: self.cap_name,
            identity: None,
            params_cbor: self.params_cbor,
            idempotency_key: self.idempotency_key,
            intent_hash: self.intent_hash,
        }
    }
}

/// An effect that waits for its receipt.
#[derive(Debug)]
pub struct ReducerReceiptSnapshot {
    pub intent_hash: [u8; 32],
    pub origin_module_id: String,
    pub effect_kind: String,
    pub origin_instance_key: Option<Vec<u8>>,
    pub params_cbor: Vec<u8>,
    pub emitted_at_seq: u64,
    pub module_version: Option<String>,
}

/// Whether two contexts are the same.
pub open spec fn same_context(a: ReducerEffectContext, b: ReducerEffectContext) -> bool {
    &&& a.origin_module_id@ == b.origin_module_id@
    &&& bytes_option(a.origin_instance_key) == bytes_option(b.origin_instance_key)
    &&& a.effect_kind@ == b.effect_kind@
    &&& a.params_cbor@ == b.params_cbor@
    &&& a.intent_id@ == b.intent_id@
    &&& a.emitted_at_seq == b.emitted_at_seq
    &&& a.module_version == b.module_version
}

impl ReducerReceiptSnapshot {
    /// The context that the snapshot stands for.
    pub open spec fn context(&self) -> ReducerEffectContext {
        ReducerEffectContext {
            origin_module_id: self.origin_module_id,
            origin_instance_key: self.origin_instance_key,
            effect_kind: self.effect_kind,
            params_cbor: self.params_cbor,
            intent_id: self.intent_hash,
            emitted_at_seq: self.emitted_at_seq,
            module_version: self.module_version,
        }
    }

    pub fn from_context(intent_hash: [u8; 32], ctx: &ReducerEffectContext) -> (r: Self)
        ensures
            r.intent_hash == intent_hash,
            same_context(
                r.context(),
                (ReducerEffectContext { intent_id: intent_hash, ..*ctx }),
            ),
    {
        ReducerReceiptSnapshot {
            intent_hash,
            origin_module_id: ctx.origin_module_id.clone(),
            effect_kind: ctx.effect_kind.clone(),
            origin_instance_key: copy_bytes_option(&ctx.origin_instance_key),
            params_cbor: clone_bytes(&ctx.params_cbor),
            emitted_at_seq: ctx.emitted_at_seq,
            module_version: copy_option(&ctx.module_version),
        }
    }

    pub fn into_context(self) -> (r: ReducerEffectContext)
        ensures
            r == self.context(),
    {
        ReducerEffectContext::new(
            self.origin_module_id,
            self.origin_instance_key,
            self.effect_kind,
            self.params_cbor,
            self.intent_hash,
            self.emitted_at_seq,
            self.module_version,
        )
    }
}

/// How far a workflow has come.
#[derive(Clone, Copy, Debug, PartialEq, Eq, Structural)]
pub enum WorkflowStatusSnapshot {
    Running,
    Waiting,
    Completed,
    Failed,
}

impl WorkflowStatusSnapshot {
    pub open spec fn name(self) -> Seq<char> {
        match self {
            WorkflowStatusSnapshot::Running => "running"@,
            WorkflowStatusSnapshot::Waiting => "waiting"@,
            WorkflowStatusSnapshot::Completed => "completed"@,
            WorkflowStatusSnapshot::Failed => "failed"@,
        }
    }

    pub fn label(self) -> (r: &'static str)
        ensures
            r@ == self.name(),
    {
        match self {
            WorkflowStatusSnapshot::Running => "running",
            WorkflowStatusSnapshot::Waiting => "waiting",
            WorkflowStatusSnapshot::Completed => "completed",
            WorkflowStatusSnapshot::Failed => "failed",
        }
    }
}

/// An effect of a workflow that is under way.
#[derive(Debug, PartialEq, Eq)]
pub struct WorkflowInflightIntentSnapshot {
    pub intent_id: [u8; 32],
    pub origin_module_id: String,
    pub origin_instance_key: Option<Vec<u8>>,
    pub effect_kind: String,
    pub params_hash: Option<String>,
    pub emitted_at_seq: u64,
}

/// An instance of a workflow.
#[derive(Debug, PartialEq, Eq)]
pub struct WorkflowInstanceSnapshot {
    pub instance_id: String,
    pub state_bytes: Vec<u8>,
    pub inflight_intents: Vec<WorkflowInflightIntentSnapshot>,
    pub status: WorkflowStatusSnapshot,
    pub last_processed_event_seq: u64,
    pub module_version: Option<String>,
}

/// A snapshot of the kernel.
#[derive(Debug)]
pub struct KernelSnapshot {
    reducer_state: Vec<ReducerStateEntry>,
    reducer_index_roots: Vec<(String, [u8; 32])>,
    recent_receipts: Vec<[u8; 32]>,
    queued_effects: Vec<EffectIntentSnapshot>,
    pending_reducer_receipts: Vec<ReducerReceiptSnapshot>,
    workflow_instances: Vec<WorkflowInstanceSnapshot>,
    height: JournalSeq,
    logical_now_ns: u64,
    manifest_hash: Option<Vec<u8>>,
    root_completeness: SnapshotRootCompleteness,
}

/// The model of a snapshot.
pub struct SnapshotView {
    pub reducer_state: Seq<ReducerStateEntry>,
    pub reducer_index_roots: Seq<(String, [u8; 32])>,
    pub recent_receipts: Seq<[u8; 32]>,
    pub queued_effects: Seq<EffectIntentSnapshot>,
    pub pending_reducer_receipts: Seq<ReducerReceiptSnapshot>,
    pub workflow_instances: Seq<WorkflowInstanceSnapshot>,
    pub height: JournalSeq,
    pub logical_now_ns: u64,
    pub manifest_hash: Option<Seq<u8>>,
    pub root_completeness: SnapshotRootCompleteness,
}

impl View for KernelSnapshot {
    type V = SnapshotView;

    closed spec fn view(&self) -> SnapshotView {
        SnapshotView {
            reducer_state: self.reducer_state@,
            reducer_index_roots: self.reducer_index_roots@,
            recent_receipts: self.recent_receipts@,
            queued_effects: self.queued_effects@,
            pending_reducer_receipts: self.pending_reducer_receipts@,
            workflow_instances: self.workflow_instances@,
            height: self.height,
            logical_now_ns: self.logical_now_ns,
            manifest_hash: bytes_option(self.manifest_hash),
            root_completeness: self.root_completeness,
        }
    }
}

impl KernelSnapshot {
    /// A snapshot without index roots and without roots to be reached.
    pub fn new(
        height: JournalSeq,
        reducer_state: Vec<ReducerStateEntry>,
        recent_receipts: Vec<[u8; 32]>,
        queued_effects: Vec<EffectIntentSnapshot>,
        pending_reducer_receipts: Vec<ReducerReceiptSnapshot>,
        workflow_instances: Vec<WorkflowInstanceSnapshot>,
        logical_now_ns: u64,
        manifest_hash: Option<[u8; 32]>,
    ) -> (r: Self)
        ensures
            r@.height == height,
            r@.reducer_state == reducer_state@,
            r@.reducer_index_roots == Seq::<(String, [u8; 32])>::empty(),
            r@.recent_receipts == recent_receipts@,
            r@.queued_effects == queued_effects@,
            r@.pending_reducer_receipts == pending_reducer_receipts@,
            r@.workflow_instances == workflow_instances@,
            r@.logical_now_ns == logical_now_ns,
            r@.manifest_hash == (match manifest_hash {
                Some(h) => Some(h@),
                None => None,
            }),
            r@.root_completeness.is_empty(),
    {
        let manifest_hash = match manifest_hash {
            Some(h) => Some(crate::bytes::copy_slice(&h)),
            None => None,
        };
        KernelSnapshot {
            reducer_state,
            reducer_index_roots: Vec::new(),
            recent_receipts,
            queued_effects,
            pending_reducer_receipts,
            workflow_instances,
            height,
            logical_now_ns,
            manifest_hash,
            root_completeness: SnapshotRootCompleteness::none(),
        }
    }

    pub fn reducer_state_entries(&self) -> (r: &[ReducerStateEntry])
        ensures
            r@ == self@.reducer_state,
    {
        self.reducer_state.as_slice()
    }

    pub fn reducer_index_roots(&self) -> (r: &[(String, [u8; 32])])
        ensures
            r@ == self@.reducer_index_roots,
    {
        self.reducer_index_roots.as_slice()
    }

    pub fn set_reducer_index_roots(&mut self, roots: Vec<(String, [u8; 32])>)
        ensures
            final(self)@ == (SnapshotView { reducer_index_roots: roots@, ..old(self)@ }),
    {
        self.reducer_index_roots = roots;
    }

    pub fn recent_receipts(&self) -> (r: &[[u8; 32]])
        ensures
            r@ == self@.recent_receipts,
    {
        self.recent_receipts.as_slice()
    }

    pub fn height(&self) -> (r: JournalSeq)
        ensures
            r == self@.height,
    {
        self.height
    }

    pub fn queued_effects(&self) -> (r: &[EffectIntentSnapshot])
        ensures
            r@ == self@.queued_effects,
    {
        self.queued_effects.as_slice()
    }

    pub fn pending_reducer_receipts(&self) -> (r: &[ReducerReceiptSnapshot])
        ensures
            r@ == self@.pending_reducer_receipts,
    {
        self.pending_reducer_receipts.as_slice()
    }

    pub fn workflow_instances(&self) -> (r: &[WorkflowInstanceSnapshot])
        ensures
            r@ == self@.workflow_instances,
    {
        self.workflow_instances.as_slice()
    }

    pub fn logical_now_ns(&self) -> (r: u64)
        ensures
            r == self@.logical_now_ns,
    {
        self.logical_now_ns
    }

    pub fn manifest_hash(&self) -> (r: Option<&[u8]>)
        ensures
            match r {
                Some(b) => self@.manifest_hash == Some(b@),
                None => self@.manifest_hash is None,
            },
    {
        match &self.manifest_hash {
            Some(b) => Some(b.as_slice()),
            None => None,
        }
    }

    pub fn set_root_completeness(&mut self, roots: SnapshotRootCompleteness)
        ensures
            final(self)@ == (SnapshotView { root_completeness: roots, ..old(self)@ }),
    {
        self.root_completeness = roots;
    }

    pub fn root_completeness(&self) -> (r: &SnapshotRootCompleteness)
        ensures
            *r == self@.root_completeness,
    {
        &self.root_completeness
    }
}

/// Digests of which none occurs twice.
#[derive(Debug)]
pub struct DigestSet {
    items: Vec<[u8; 32]>,
}

impl DigestSet {
    pub closed spec fn list(&self) -> Seq<[u8; 32]> {
        self.items@
    }

    #[verifier::type_invariant]
    spec fn wf(&self) -> bool {
        self.items@.no_duplicates()
    }

    /// An empty set.
    pub fn new() -> (r: Self)
        ensures
            r.list() == Seq::<[u8; 32]>::empty(),
    {
        DigestSet { items: Vec::new() }
    }

    pub fn len(&self) -> (r: usize)
        ensures
            r == self.list().len(),
            self.list().no_duplicates(),
    {
        proof {
            use_type_invariant(self);
        }
        self.items.len()
    }

    pub fn contains(&self, hash: &[u8; 32]) -> (r: bool)
        ensures
            r == self.list().contains(*hash),
    {
        let mut i: usize = 0;
        while i < self.items.len()
            invariant
                i <= self.items@.len(),
                forall|k: int| 0 <= k < i ==> #[trigger] self.items@[k] != *hash,
            decreases self.items@.len() - i,
        {
            if bytes_eq(&self.items[i], hash) {
                proof {
                    lemma_same_array(self.items@[i as int], *hash);
                }
                return true;
            }
            i += 1;
        }
        false
    }

    /// Adds a digest, if it is not there.
    pub fn insert(&mut self, hash: [u8; 32]) -> (added: bool)
        ensures
            added == !old(self).list().contains(hash),
            final(self).list() == if added {
                old(self).list().push(hash)
            } else {
                old(self).list()
            },
    {
        proof {
            use_type_invariant(&*self);
        }
        if self.contains(&hash) {
            return false;
        }
        let mut items: Vec<[u8; 32]> = Vec::new();
        std::mem::swap(&mut items, &mut self.items);
        items.push(hash);
        self.items = items;
        true
    }
}

proof fn lemma_same_array(a: [u8; 32], b: [u8; 32])
    requires
        a@ == b@,
    ensures
        a == b,
{
    assert(a =~= b);
}

/// The first receipts, at most `cap` of them, in order and as a set.
pub fn receipts_to_vecdeque(receipts: &[[u8; 32]], cap: usize) -> (r: (
    VecDeque<[u8; 32]>,
    DigestSet,
))
    ensures
        r.0@ == receipts@.take(
            if cap < receipts@.len() {
                cap as int
            } else {
                receipts@.len() as int
            },
        ),
        forall|h: [u8; 32]| #[trigger] r.1.list().contains(h) <==> r.0@.contains(h),
{
    let mut deque: VecDeque<[u8; 32]> = VecDeque::new();
    let mut set = DigestSet::new();
    let mut i: usize = 0;
    while i < receipts.len() && i < cap
        invariant
            i <= receipts@.len(),
            i <= cap,
            deque@ == receipts@.take(i as int),
            forall|h: [u8; 32]| #[trigger] set.list().contains(h) <==> deque@.contains(h),
        decreases receipts@.len() - i,
    {
        let ghost before = deque@;
        let ghost was = set.list();
        let hash: [u8; 32] = receipts[i];
        deque.push_back(hash);
        let added = set.insert(hash);
        proof {
            assert(receipts@.take(i + 1) =~= receipts@.take(i as int).push(receipts@[i as int]));
            assert forall|h: [u8; 32]| #[trigger] set.list().contains(h) <==> deque@.contains(h) by {
                lemma_push_contains(before, hash, h);
                lemma_push_contains(was, hash, h);
            }
        }
        i += 1;
    }
    (deque, set)
}

proof fn lemma_push_contains(s: Seq<[u8; 32]>, x: [u8; 32], h: [u8; 32])
    ensures
        s.push(x).contains(h) <==> s.contains(h) || h == x,
{
    let p = s.push(x);
    if s.contains(h) {
        let k = s.index_of(h);
        assert(p[k] == h);
    }
    if h == x {
        assert(p[s.len() as int] == h);
    }
    if p.contains(h) {
        let k = p.index_of(h);
        if k < s.len() {
            assert(s[k] == h);
        }
    }
}

/// An intent comes out of a snapshot with the kind, the capability, the params, the key and the
/// digest that it went in with.
pub proof fn lemma_intent_comes_back(s: EffectIntentSnapshot, intent: IntentView)
    requires
        s.intent() == (IntentView { identity: None, ..intent }),
    ensures
        s.kind@ == intent.kind,
        s.cap_name@ == intent.cap_name,
        s.params_cbor@ == intent.params,
        s.idempotency_key@ == intent.idempotency_key,
        s.intent_hash@ == intent.intent_hash,
{
}

/// The context of an effect comes out of a snapshot as it went in, under the digest that it was put
/// in with.
pub proof fn lemma_context_comes_back(
    s: ReducerReceiptSnapshot,
    intent_hash: [u8; 32],
    ctx: ReducerEffectContext,
)
    requires
        s.intent_hash == intent_hash,
        same_context(s.context(), (ReducerEffectContext { intent_id: intent_hash, ..ctx })),
    ensures
        s.origin_module_id@ == ctx.origin_module_id@,
        s.origin_instance_key is Some <==> ctx.origin_instance_key is Some,
        s.origin_instance_key matches Some(k) ==> k@ == (ctx.origin_instance_key->0)@,
        s.effect_kind@ == ctx.effect_kind@,
        s.params_cbor@ == ctx.params_cbor@,
        s.emitted_at_seq == ctx.emitted_at_seq,
        s.module_version == ctx.module_version,
        s.context().intent_id == intent_hash,
{
}

} // verus!
