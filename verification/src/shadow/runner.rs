//! The shadow run: a patch is tried on a kernel of its own, with receipts made up for the effects
//! that the kernel does not handle itself.
use vstd::prelude::*;

use crate::air::{AirNode, Builtins};
use crate::bytes::bytes_eq;
use crate::cbor::{json_of, params_to_json};
use crate::codec::{base64_encode, base64_text};
use crate::effects::{EffectIntent, IntentView, intents_view};
use crate::error::{is_manifest_error, KernelError};
use crate::governance::{patch_load_failed, patch_loaded, secrets_of};
use crate::hash::{hash_fault, hash_text, hex_bytes, hex_encode, hex_text, is_hash_text, sha256,
    ContentHash};
use crate::manifest::LoadedManifest;
use crate::names::NameMap;
use crate::receipts::{EffectReceipt, ReceiptStatus};
use crate::shadow::config::ShadowConfig;
use crate::shadow::summary::{ModuleEffectAllowlist, PendingWorkflowReceipt, PredictedEffect,
    ShadowSummary, WorkflowInstancePreview};
use crate::snapshot::{WorkflowInflightIntentSnapshot, WorkflowInstanceSnapshot};
use crate::store::Store;
use crate::text::{copy_option, join2, text_option, texts};
use crate::text_order::{sort_texts, texts_sorted};

verus! {

/// The model of a predicted effect.
pub struct PredictedView {
    pub op: Seq<char>,
    pub intent_hash: Seq<char>,
    pub params_json: Option<Seq<char>>,
}

impl View for PredictedEffect {
    type V = PredictedView;

    open spec fn view(&self) -> PredictedView {
        PredictedView {
            op: self.op@,
            intent_hash: self.intent_hash@,
            params_json: text_option(self.params_json),
        }
    }
}

/// What is foretold of an intent.
pub open spec fn predicted(intent: IntentView) -> PredictedView {
    PredictedView {
        op: intent.kind,
        intent_hash: hex_text(intent.intent_hash),
        params_json: json_of(intent.params),
    }
}

pub open spec fn predictions(s: Seq<PredictedEffect>) -> Seq<PredictedView> {
    Seq::new(s.len(), |i: int| s[i]@)
}

pub open spec fn all_predicted(s: Seq<IntentView>) -> Seq<PredictedView> {
    Seq::new(s.len(), |i: int| predicted(s[i]))
}

fn predict(intent: &EffectIntent) -> (r: PredictedEffect)
    ensures
        r@ == predicted(intent@),
{
    PredictedEffect {
        op: intent.kind.clone(),
        intent_hash: hex_encode(&intent.intent_hash),
        params_json: params_to_json(intent.params_cbor.as_slice()),
    }
}

/// Whether a receipt is one made up for an intent: a success without a payload.
pub open spec fn is_mock(r: EffectReceipt, intent_hash: [u8; 32]) -> bool {
    &&& r.intent_hash == intent_hash
    &&& r.adapter_id@ == "shadow.mock"@
    &&& r.status == ReceiptStatus::Success
    &&& r.payload_cbor@.len() == 0
    &&& r.cost_cents is None
    &&& r.signature@.len() == 0
}

/// The receipt for an intent: the one that the kernel gives, or a made up one.
pub fn shadow_receipt(intent: &EffectIntent, internal: Option<EffectReceipt>) -> (r: EffectReceipt)
    ensures
        match internal {
            Some(x) => r == x,
            None => is_mock(r, intent.intent_hash),
        },
{
    match internal {
        Some(x) => x,
        None => EffectReceipt {
            intent_hash: intent.intent_hash,
            adapter_id: "shadow.mock".to_owned(),
            status: ReceiptStatus::Success,
            payload_cbor: Vec::new(),
            cost_cents: None,
            signature: Vec::new(),
        },
    }
}

/// What a shadow run does next.
#[derive(Clone, Copy, Debug, PartialEq, Eq, Structural)]
pub enum ShadowStep {
    /// Hand the kernel the seed event with this number.
    Seed(usize),
    /// Let the kernel run until it is idle, and take the intents that it has queued.
    Drain,
    /// Let the kernel handle the intent with this number of those last taken.
    Handle(usize),
    /// Nothing is left.
    Done,
}

/// A shadow run under way.
#[derive(Debug)]
pub struct ShadowRun {
    seeds: usize,
    seeded: usize,
    intents: Vec<EffectIntent>,
    handled: usize,
    idle: bool,
    predicted_effects: Vec<PredictedEffect>,
    allowed: Vec<ModuleEffectAllowlist>,
}

/// The model of a shadow run: how many seed events there are and how many have been handed over,
/// the intents last taken and how many of them have been handled, whether the kernel had nothing
/// left to do, what has been foretold, and the effects that the workflows may ask for.
pub struct RunView {
    pub seeds: nat,
    pub seeded: nat,
    pub intents: Seq<IntentView>,
    pub handled: nat,
    pub idle: bool,
    pub predicted: Seq<PredictedView>,
    pub allowed: Seq<AllowlistView>,
}

impl View for ShadowRun {
    type V = RunView;

    closed spec fn view(&self) -> RunView {
        RunView {
            seeds: self.seeds as nat,
            seeded: self.seeded as nat,
            intents: intents_view(self.intents@),
            handled: self.handled as nat,
            idle: self.idle,
            predicted: predictions(self.predicted_effects@),
            allowed: lists_view(self.allowed@),
        }
    }
}

/// What a run does next: first the seed events, then the intents at hand, then it asks for more,
/// until there are none.
pub open spec fn next_step(v: RunView) -> ShadowStep {
    if v.seeded < v.seeds {
        ShadowStep::Seed(v.seeded as usize)
    } else if v.handled < v.intents.len() {
        ShadowStep::Handle(v.handled as usize)
    } else if v.idle {
        ShadowStep::Done
    } else {
        ShadowStep::Drain
    }
}

impl ShadowRun {
    #[verifier::type_invariant]
    spec fn wf(&self) -> bool {
        self.seeded <= self.seeds && self.handled <= self.intents@.len()
    }

    /// A run at its start, of the manifest that the patch makes.
    pub fn new<M: ModuleReader>(config: &ShadowConfig, loaded: &LoadedManifest, reader: &M) -> (r:
        Self)
        ensures
            allowed_by(r@.allowed, reader, loaded.modules),
            r@ == (RunView {
                seeds: match config.harness {
                    Some(h) => h.seed_events@.len(),
                    None => 0,
                },
                seeded: 0,
                intents: Seq::empty(),
                handled: 0,
                idle: false,
                predicted: Seq::empty(),
                allowed: r@.allowed,
            }),
    {
        let seeds: usize = match &config.harness {
            Some(h) => h.seed_events.len(),
            None => 0,
        };
        let r = ShadowRun {
            seeds,
            seeded: 0,
            intents: Vec::new(),
            handled: 0,
            idle: false,
            predicted_effects: Vec::new(),
            allowed: module_effect_allowlists(&loaded.modules, reader),
        };
        assert(r@.intents =~= Seq::empty());
        assert(r@.predicted =~= Seq::empty());
        r
    }

    /// What to do next.
    pub fn next(&self) -> (r: ShadowStep)
        ensures
            r == next_step(self@),
    {
        if self.seeded < self.seeds {
            ShadowStep::Seed(self.seeded)
        } else if self.handled < self.intents.len() {
            ShadowStep::Handle(self.handled)
        } else if self.idle {
            ShadowStep::Done
        } else {
            ShadowStep::Drain
        }
    }

    /// A seed event has been handed over.
    pub fn seed_submitted(&mut self)
        requires
            next_step(old(self)@) is Seed,
        ensures
            final(self)@ == (RunView { seeded: old(self)@.seeded + 1, ..old(self)@ }),
    {
        proof {
            use_type_invariant(&*self);
        }
        self.seeded += 1;
    }

    /// The intents that were queued have been taken. All of them are foretold; where there are
    /// none, the run is over.
    pub fn drained(&mut self, intents: Vec<EffectIntent>)
        requires
            next_step(old(self)@) is Drain,
        ensures
            final(self)@ == (RunView {
                intents: intents_view(intents@),
                handled: 0,
                idle: intents@.len() == 0,
                predicted: old(self)@.predicted + all_predicted(intents_view(intents@)),
                ..old(self)@
            }),
    {
        let ghost all = intents_view(intents@);
        let ghost before = self@.predicted;
        let mut out: Vec<PredictedEffect> = Vec::new();
        let mut i: usize = 0;
        while i < intents.len()
            invariant
                i <= intents@.len(),
                all == intents_view(intents@),
                out@.len() == i,
                forall|k: int| 0 <= k < i ==> (#[trigger] out@[k])@ == predicted(all[k]),
            decreases intents@.len() - i,
        {
            assert(all[i as int] == intents@[i as int]@);
            out.push(predict(&intents[i]));
            i += 1;
        }
        let ghost had = self.predicted_effects@;
        let ghost more = out@;
        proof {
            use_type_invariant(&*self);
        }
        let mut all_effects: Vec<PredictedEffect> = Vec::new();
        std::mem::swap(&mut all_effects, &mut self.predicted_effects);
        all_effects.append(&mut out);
        self.predicted_effects = all_effects;
        self.idle = intents.len() == 0;
        self.handled = 0;
        self.intents = intents;
        proof {
            assert(self.predicted_effects@ =~= had + more);
            assert(predictions(self.predicted_effects@) =~= before + all_predicted(all));
        }
    }

    /// The kernel has answered for the next intent: the receipt that is to be handed to it.
    pub fn handled(&mut self, internal: Option<EffectReceipt>) -> (r: EffectReceipt)
        requires
            next_step(old(self)@) is Handle,
        ensures
            final(self)@ == (RunView { handled: old(self)@.handled + 1, ..old(self)@ }),
            match internal {
                Some(x) => r == x,
                None => r.intent_hash@ == old(self)@.intents[old(
                    self,
                )@.handled as int].intent_hash && is_mock(r, r.intent_hash),
            },
    {
        proof {
            use_type_invariant(&*self);
        }
        let i: usize = self.handled;
        let n: usize = self.intents.len();
        assert(i < n);
        let r = shadow_receipt(&self.intents[i], internal);
        assert(self@.intents[i as int] == self.intents@[i as int]@);
        self.handled = i + 1;
        r
    }

    /// The intent that is to be handled.
    pub fn current(&self) -> (r: &EffectIntent)
        requires
            next_step(self@) is Handle,
        ensures
            r@ == self@.intents[self@.handled as int],
    {
        proof {
            assert(self@.intents[self.handled as int] == self.intents@[self.handled as int]@);
        }
        &self.intents[self.handled]
    }

    /// What has been foretold, and the effects that the workflows may ask for.
    pub fn into_predictions(self) -> (r: (Vec<PredictedEffect>, Vec<ModuleEffectAllowlist>))
        ensures
            predictions(r.0@) == self@.predicted,
            lists_view(r.1@) == self@.allowed,
    {
        (self.predicted_effects, self.allowed)
    }
}

/// The model of a receipt that a workflow waits for.
pub struct PendingView {
    pub instance_id: Seq<char>,
    pub origin_module_id: Seq<char>,
    pub origin_instance_key_b64: Option<Seq<char>>,
    pub intent_hash: Seq<char>,
    pub effect_op: Seq<char>,
    pub emitted_at_seq: u64,
}

impl View for PendingWorkflowReceipt {
    type V = PendingView;

    open spec fn view(&self) -> PendingView {
        PendingView {
            instance_id: self.instance_id@,
            origin_module_id: self.origin_module_id@,
            origin_instance_key_b64: text_option(self.origin_instance_key_b64),
            intent_hash: self.intent_hash@,
            effect_op: self.effect_op@,
            emitted_at_seq: self.emitted_at_seq,
        }
    }
}

pub open spec fn pendings(s: Seq<PendingWorkflowReceipt>) -> Seq<PendingView> {
    Seq::new(s.len(), |i: int| s[i]@)
}

/// The receipt that an instance waits for on account of an intent.
pub open spec fn pending(instance_id: Seq<char>, x: WorkflowInflightIntentSnapshot) -> PendingView {
    PendingView {
        instance_id,
        origin_module_id: x.origin_module_id@,
        origin_instance_key_b64: match x.origin_instance_key {
            Some(k) => Some(base64_text(k@)),
            None => None,
        },
        intent_hash: hex_text(x.intent_id@),
        effect_op: x.effect_kind@,
        emitted_at_seq: x.emitted_at_seq,
    }
}

pub open spec fn instance_pending(i: WorkflowInstanceSnapshot) -> Seq<PendingView> {
    Seq::new(
        i.inflight_intents@.len(),
        |k: int| pending(i.instance_id@, i.inflight_intents@[k]),
    )
}

/// The receipts that the first `n` instances wait for, in order.
pub open spec fn all_pending(s: Seq<WorkflowInstanceSnapshot>, n: nat) -> Seq<PendingView>
    decreases n,
{
    if n == 0 || n > s.len() {
        Seq::empty()
    } else {
        all_pending(s, (n - 1) as nat) + instance_pending(s[n - 1])
    }
}

/// The receipts that instances wait for.
pub fn pending_receipts(instances: &Vec<WorkflowInstanceSnapshot>) -> (r: Vec<
    PendingWorkflowReceipt,
>)
    ensures
        pendings(r@) == all_pending(instances@, instances@.len()),
{
    let mut out: Vec<PendingWorkflowReceipt> = Vec::new();
    let mut i: usize = 0;
    assert(pendings(out@) =~= Seq::empty());
    while i < instances.len()
        invariant
            i <= instances@.len(),
            pendings(out@) == all_pending(instances@, i as nat),
        decreases instances@.len() - i,
    {
        let instance = &instances[i];
        let ghost done = all_pending(instances@, i as nat);
        let ghost here = instance_pending(*instance);
        let mut k: usize = 0;
        assert(done + here.take(0) =~= done);
        while k < instance.inflight_intents.len()
            invariant
                k <= instance.inflight_intents@.len(),
                here == instance_pending(*instance),
                pendings(out@) == done + here.take(k as int),
            decreases instance.inflight_intents@.len() - k,
        {
            let x = &instance.inflight_intents[k];
            let key = match &x.origin_instance_key {
                Some(b) => Some(base64_encode(b.as_slice())),
                None => None,
            };
            let next = PendingWorkflowReceipt {
                instance_id: instance.instance_id.clone(),
                origin_module_id: x.origin_module_id.clone(),
                origin_instance_key_b64: key,
                intent_hash: hex_encode(&x.intent_id),
                effect_op: x.effect_kind.clone(),
                emitted_at_seq: x.emitted_at_seq,
            };
            let ghost was = out@;
            out.push(next);
            proof {
                assert(next@ == here[k as int]);
                assert(pendings(out@) =~= pendings(was).push(next@));
                assert(here.take(k + 1) =~= here.take(k as int).push(here[k as int]));
                assert(done + here.take(k as int).push(here[k as int]) =~= (done + here.take(
                    k as int,
                )).push(here[k as int]));
            }
            k += 1;
        }
        assert(here.take(k as int) =~= here);
        i += 1;
    }
    out
}

/// Whether a preview shows an instance.
pub open spec fn is_preview(p: WorkflowInstancePreview, i: WorkflowInstanceSnapshot) -> bool {
    &&& p.instance_id@ == i.instance_id@
    &&& p.status@ == i.status.name()
    &&& p.last_processed_event_seq == i.last_processed_event_seq
    &&& p.module_version == i.module_version
    &&& p.inflight_intents == i.inflight_intents@.len()
}

/// Previews of instances.
pub fn instance_previews(instances: &Vec<WorkflowInstanceSnapshot>) -> (r: Vec<
    WorkflowInstancePreview,
>)
    ensures
        r@.len() == instances@.len(),
        forall|k: int| 0 <= k < r@.len() ==> is_preview(#[trigger] r@[k], instances@[k]),
{
    let mut out: Vec<WorkflowInstancePreview> = Vec::new();
    let mut i: usize = 0;
    while i < instances.len()
        invariant
            i <= instances@.len(),
            out@.len() == i,
            forall|k: int| 0 <= k < i ==> is_preview(#[trigger] out@[k], instances@[k]),
        decreases instances@.len() - i,
    {
        let x = &instances[i];
        out.push(
            WorkflowInstancePreview {
                instance_id: x.instance_id.clone(),
                status: x.status.label().to_owned(),
                last_processed_event_seq: x.last_processed_event_seq,
                module_version: copy_option(&x.module_version),
                inflight_intents: x.inflight_intents.len(),
            },
        );
        i += 1;
    }
    out
}

/// What reads the definitions of modules.
pub trait ModuleReader {
    /// The effects that a module asks for; only workflows say so.
    fn effects_emitted(&self, module: &AirNode) -> Option<Vec<String>>;
}

/// What a module of a manifest says of the effects that it asks for; only workflows say so.
#[derive(Debug)]
pub struct ModuleEffects {
    pub name: String,
    pub effects_emitted: Option<Vec<String>>,
}

/// A module that is a workflow and the effects that it may ask for, in name order.
pub type AllowlistView = (Seq<char>, Seq<Seq<char>>);

/// The allow-lists of the first `n` modules.
pub open spec fn allowlists(s: Seq<ModuleEffects>, n: nat) -> Seq<AllowlistView>
    decreases n,
{
    if n == 0 || n > s.len() {
        Seq::empty()
    } else {
        let done = allowlists(s, (n - 1) as nat);
        match s[n - 1].effects_emitted {
            Some(v) => done.push((s[n - 1].name@, texts_sorted(texts(v@)))),
            None => done,
        }
    }
}

pub open spec fn lists_view(s: Seq<ModuleEffectAllowlist>) -> Seq<AllowlistView> {
    Seq::new(s.len(), |i: int| (s[i].module@, texts(s[i].effects_emitted@)))
}

/// Whether `told` is what the definitions of modules say, as they are read.
pub open spec fn modules_read<M: ModuleReader>(
    told: Seq<ModuleEffects>,
    reader: &M,
    modules: Seq<(String, AirNode)>,
) -> bool {
    &&& told.len() == modules.len()
    &&& forall|i: int|
        0 <= i < told.len() ==> (#[trigger] told[i]).name@ == modules[i].1.name@ && call_ensures(
            M::effects_emitted,
            (reader, &modules[i].1),
            told[i].effects_emitted,
        )
}

/// Whether allow-lists are those of modules, as their definitions are read.
pub open spec fn allowed_by<M: ModuleReader>(
    lists: Seq<AllowlistView>,
    reader: &M,
    modules: NameMap<AirNode>,
) -> bool {
    exists|told: Seq<ModuleEffects>| #[trigger]
        modules_read(told, reader, modules.list()) && lists == allowlists(told, told.len())
}

/// The effects that the workflows among modules may ask for.
pub fn module_effect_allowlists<M: ModuleReader>(modules: &NameMap<AirNode>, reader: &M) -> (r: Vec<
    ModuleEffectAllowlist,
>)
    ensures
        allowed_by(lists_view(r@), reader, *modules),
{
    let entries = modules.entries();
    let mut told: Vec<ModuleEffects> = Vec::new();
    let mut i: usize = 0;
    while i < entries.len()
        invariant
            i <= entries@.len(),
            told@.len() == i,
            forall|k: int|
                0 <= k < i ==> (#[trigger] told@[k]).name@ == entries@[k].1.name@ && call_ensures(
                    M::effects_emitted,
                    (reader, &entries@[k].1),
                    told@[k].effects_emitted,
                ),
        decreases entries@.len() - i,
    {
        let m = &entries[i].1;
        let effects_emitted = reader.effects_emitted(m);
        told.push(ModuleEffects { name: m.name.clone(), effects_emitted });
        i += 1;
    }
    assert(modules_read(told@, reader, modules.list()));
    lists_of(&told)
}

fn lists_of(modules: &Vec<ModuleEffects>) -> (r: Vec<ModuleEffectAllowlist>)
    ensures
        lists_view(r@) == allowlists(modules@, modules@.len()),
{
    let mut out: Vec<ModuleEffectAllowlist> = Vec::new();
    let mut i: usize = 0;
    assert(lists_view(out@) =~= Seq::empty());
    while i < modules.len()
        invariant
            i <= modules@.len(),
            lists_view(out@) == allowlists(modules@, i as nat),
        decreases modules@.len() - i,
    {
        let m = &modules[i];
        if let Some(v) = &m.effects_emitted {
            let next = ModuleEffectAllowlist {
                module: m.name.clone(),
                effects_emitted: sort_texts(v),
            };
            let ghost was = out@;
            out.push(next);
            assert(lists_view(out@) =~= lists_view(was).push(
                (m.name@, texts_sorted(texts(v@))),
            ));
        }
        i += 1;
    }
    out
}

/// Shadow runs.
pub struct ShadowExecutor;

/// Whether an error says that a patch is not the one it should be.
pub open spec fn is_mismatch(e: KernelError, expected: Seq<char>, actual: Seq<char>) -> bool {
    e matches KernelError::ShadowPatchMismatch { expected: x, actual: y } && x@ == expected && y@
        == actual
}

/// Whether a patch is the one it should be: it can be encoded, and its encoding has the digest.
pub open spec fn patch_accepted(patch_hash: Seq<char>, encoded: Result<Vec<u8>, String>) -> bool {
    encoded matches Ok(b) && is_hash_text(patch_hash) && hex_bytes(patch_hash.skip(7)) == sha256(
        b@,
    )
}

/// Whether an error says why a patch is not the one it should be.
pub open spec fn is_patch_refusal(
    e: KernelError,
    patch_hash: Seq<char>,
    encoded: Result<Vec<u8>, String>,
) -> bool {
    match encoded {
        Err(t) => is_manifest_error(e, "encode patch: "@ + t@),
        Ok(b) => if is_hash_text(patch_hash) {
            is_mismatch(e, hash_text(hex_bytes(patch_hash.skip(7))), hash_text(sha256(b@)))
        } else {
            is_manifest_error(e, "invalid patch hash: "@ + hash_fault(patch_hash))
        },
    }
}

impl ShadowExecutor {
    /// Whether the encoding of a patch has the digest that it should have.
    pub fn check_patch(patch_hash: &str, encoded: &Result<Vec<u8>, String>) -> (r: Result<
        (),
        KernelError,
    >)
        ensures
            match r {
                Ok(_) => patch_accepted(patch_hash@, *encoded),
                Err(e) => !patch_accepted(patch_hash@, *encoded) && is_patch_refusal(
                    e,
                    patch_hash@,
                    *encoded,
                ),
            },
    {
        let bytes = match encoded {
            Ok(b) => b,
            Err(t) => {
                return Err(KernelError::Manifest(join2("encode patch: ", t.as_str())));
            },
        };
        let expected = match ContentHash::from_hex_str(patch_hash) {
            Ok(h) => h,
            Err(e) => {
                let why = e.message();
                return Err(
                    KernelError::Manifest(join2("invalid patch hash: ", why.as_str())),
                );
            },
        };
        let actual = ContentHash::of_bytes(bytes.as_slice());
        if !bytes_eq(expected.as_bytes(), actual.as_bytes()) {
            return Err(
                KernelError::ShadowPatchMismatch {
                    expected: expected.to_hex(),
                    actual: actual.to_hex(),
                },
            );
        }
        Ok(())
    }

    /// The manifest that a patch makes, if the patch is the one it should be.
    pub fn load_patch<S: Store<AirNode>>(
        store: &S,
        config: &ShadowConfig,
        encoded: &Result<Vec<u8>, String>,
        builtins: &Builtins,
    ) -> (r: Result<LoadedManifest, KernelError>)
        ensures
            if patch_accepted(config.patch_hash@, *encoded) {
                match (secrets_of(config.patch@.nodes, config.patch@.nodes.len()), r) {
                    (Err(t), Err(e)) => is_manifest_error(e, t),
                    (Err(_), Ok(_)) => false,
                    (Ok(s), Ok(m)) => patch_loaded(config.patch@, s, *builtins, store.nodes())
                        == Some(m@),
                    (Ok(s), Err(e)) => patch_load_failed(
                        config.patch@,
                        s,
                        *builtins,
                        *store,
                        e,
                    ),
                }
            } else {
                r matches Err(e) && is_patch_refusal(e, config.patch_hash@, *encoded)
            },
    {
        match Self::check_patch(config.patch_hash.as_str(), encoded) {
            Ok(_) => config.patch.to_loaded_manifest(store, builtins),
            Err(e) => Err(e),
        }
    }

    /// The report of a run that is over.
    pub fn summarize(
        run: ShadowRun,
        manifest_encoded: Result<Vec<u8>, String>,
        instances: &Vec<WorkflowInstanceSnapshot>,
    ) -> (r: Result<ShadowSummary, KernelError>)
        requires
            next_step(run@) is Done,
        ensures
            match manifest_encoded {
                Err(t) => r matches Err(e) && is_manifest_error(e, "encode manifest: "@ + t@),
                Ok(b) => r matches Ok(s) && {
                    &&& s.manifest_hash@ == hash_text(sha256(b@))
                    &&& predictions(s.predicted_effects@) == run@.predicted
                    &&& pendings(s.pending_workflow_receipts@) == all_pending(
                        instances@,
                        instances@.len(),
                    )
                    &&& s.workflow_instances@.len() == instances@.len()
                    &&& forall|k: int|
                        0 <= k < instances@.len() ==> is_preview(
                            #[trigger] s.workflow_instances@[k],
                            instances@[k],
                        )
                    &&& lists_view(s.module_effect_allowlists@) == run@.allowed
                },
            },
    {
        let bytes = match manifest_encoded {
            Ok(b) => b,
            Err(t) => {
                return Err(KernelError::Manifest(join2("encode manifest: ", t.as_str())));
            },
        };
        let (predicted_effects, module_effect_allowlists) = run.into_predictions();
        Ok(
            ShadowSummary {
                manifest_hash: ContentHash::of_bytes(bytes.as_slice()).to_hex(),
                predicted_effects,
                pending_workflow_receipts: pending_receipts(instances),
                workflow_instances: instance_previews(instances),
                module_effect_allowlists,
            },
        )
    }
}

/// A run is over only once all seed events have been handed over, every intent that was taken has
/// been handled, and the kernel had nothing more to do.
pub proof fn lemma_run_is_over(v: RunView)
    requires
        next_step(v) is Done,
    ensures
        v.seeded >= v.seeds,
        v.handled >= v.intents.len(),
        v.idle,
{
}

} // verus!
