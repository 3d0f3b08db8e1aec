//! Plans: graphs of steps that assign values, emit effects, wait for receipts and events, raise
//! events, and end with a result.
use vstd::prelude::*;

use crate::bytes::bytes_lt;
use crate::capability::CapGrantResolution;
use crate::event::IngressStamp;
use crate::literal::ValueLiteral;
use crate::names::{deep, NameMap};
use crate::types::SchemaIndex;
use crate::value::{ExprValue, ValueTree};

pub mod asked;
pub mod course;
pub mod effect_host;
pub mod laws;
pub mod readiness;
pub mod ready_laws;
pub mod snapshot;
pub mod step_laws;
pub mod steps;
pub mod tick;
pub mod waits;

verus! {

/// An expression, in the form in which its evaluator takes it.
#[derive(Debug, PartialEq, Eq)]
pub struct Expr {
    pub source: String,
}

impl Clone for Expr {
    fn clone(&self) -> (r: Self)
        ensures
            r == *self,
    {
        Expr { source: self.source.clone() }
    }
}

/// What stands where a plan wants a value.
#[derive(Debug)]
pub enum ExprOrValue {
    Expr(Expr),
    Literal(ValueLiteral),
    /// A literal that has not been normalized.
    Json,
}

impl ExprOrValue {
    /// A copy.
    pub fn copied(&self) -> (r: Self)
        ensures
            match (*self, r) {
                (ExprOrValue::Expr(a), ExprOrValue::Expr(b)) => a == b,
                (ExprOrValue::Literal(a), ExprOrValue::Literal(b)) => a@ == b@,
                (ExprOrValue::Json, ExprOrValue::Json) => true,
                _ => false,
            },
    {
        match self {
            ExprOrValue::Expr(e) => ExprOrValue::Expr(e.clone()),
            ExprOrValue::Literal(l) => ExprOrValue::Literal(l.copied()),
            ExprOrValue::Json => ExprOrValue::Json,
        }
    }
}

/// What a step does.
#[derive(Debug)]
pub enum PlanStepKind {
    Assign { expr: ExprOrValue, var: String },
    EmitEffect {
        kind: String,
        params: ExprOrValue,
        cap: String,
        effect_id_as: String,
        idempotency_key: Option<ExprOrValue>,
    },
    AwaitReceipt { for_expr: Expr, var: String },
    AwaitEvent { event: String, where_clause: Option<Expr>, var: String },
    RaiseEvent { event: String, value: ExprOrValue },
    End { result: Option<ExprOrValue> },
}

#[derive(Debug)]
pub struct PlanStep {
    pub id: String,
    pub kind: PlanStepKind,
}

/// The step `to` waits for the step `from`, and is active where the guard holds.
#[derive(Debug)]
pub struct PlanEdge {
    pub from: String,
    pub to: String,
    pub when: Option<Expr>,
}

#[derive(Debug)]
pub struct DefPlan {
    pub name: String,
    pub input: String,
    pub output: Option<String>,
    pub steps: Vec<PlanStep>,
    pub edges: Vec<PlanEdge>,
    pub required_caps: Vec<String>,
    pub allowed_effects: Vec<String>,
    pub invariants: Vec<Expr>,
}

/// The plans of a manifest, by name.
#[derive(Debug)]
pub struct PlanRegistry {
    plans: NameMap<DefPlan>,
}

impl PlanRegistry {
    pub closed spec fn map(&self) -> Map<Seq<char>, DefPlan> {
        self.plans.map()
    }

    pub fn new() -> (r: Self)
        ensures
            r.map() == Map::<Seq<char>, DefPlan>::empty(),
    {
        PlanRegistry { plans: NameMap::new() }
    }

    /// Registers a plan under its name, in place of an earlier plan of that name.
    pub fn register(&mut self, plan: DefPlan)
        ensures
            final(self).map() == old(self).map().insert(plan.name@, plan),
    {
        let name = plan.name.clone();
        self.plans.insert(name, plan);
    }

    pub fn get(&self, name: &str) -> (r: Option<&DefPlan>)
        ensures
            match r {
                Some(p) => self.map().contains_key(name@) && self.map()[name@] == *p,
                None => !self.map().contains_key(name@),
            },
    {
        self.plans.get(name)
    }
}

#[derive(Clone, Copy, Debug, PartialEq, Eq, Structural)]
pub enum StepState {
    Pending,
    WaitingReceipt,
    WaitingEvent,
    Completed,
    Skipped,
}

impl View for StepState {
    type V = StepState;

    open spec fn view(&self) -> StepState {
        *self
    }
}

/// What expressions can refer to.
#[derive(Debug)]
pub struct ExprEnv {
    pub plan_input: ExprValue,
    pub vars: NameMap<ExprValue>,
    pub steps: NameMap<ExprValue>,
    pub current_event: Option<ExprValue>,
}

/// A step that waits for the receipt of an intent.
#[derive(Debug)]
pub struct ReceiptWait {
    pub step_id: String,
    pub intent_hash: [u8; 32],
}

/// A step that waits for an event.
#[derive(Debug)]
pub struct EventWait {
    pub step_id: String,
    pub schema: String,
    pub where_clause: Option<Expr>,
}

/// When and under which manifest a plan was started.
#[derive(Debug)]
pub struct PlanContext {
    pub logical_now_ns: u64,
    pub journal_height: u64,
    pub manifest_hash: String,
}

impl PlanContext {
    pub fn from_stamp(stamp: &IngressStamp) -> (r: Self)
        ensures
            r.logical_now_ns == stamp.logical_now_ns,
            r.journal_height == stamp.journal_height,
            r.manifest_hash@ == stamp.manifest_hash@,
    {
        PlanContext {
            logical_now_ns: stamp.logical_now_ns,
            journal_height: stamp.journal_height,
            manifest_hash: stamp.manifest_hash.clone(),
        }
    }
}

impl Clone for PlanContext {
    fn clone(&self) -> (r: Self)
        ensures
            r == *self,
    {
        PlanContext {
            logical_now_ns: self.logical_now_ns,
            journal_height: self.journal_height,
            manifest_hash: self.manifest_hash.clone(),
        }
    }
}

#[derive(Debug)]
pub struct PlanError {
    pub code: String,
}

/// An event for reducers and plans.
#[derive(Debug)]
pub struct DomainEvent {
    pub schema: String,
    pub value: Vec<u8>,
    pub key: Option<Vec<u8>>,
}

impl DomainEvent {
    /// An event without a key.
    pub fn new(schema: String, value: Vec<u8>) -> (r: Self)
        ensures
            r.schema == schema,
            r.value == value,
            r.key is None,
    {
        DomainEvent { schema, value, key: None }
    }
}

/// A run of a plan. The receipt waits are ordered by intent hash, and no two have the same.
#[derive(Debug)]
pub struct PlanInstance {
    pub id: u64,
    pub name: String,
    pub plan: DefPlan,
    pub env: ExprEnv,
    pub completed: bool,
    pub context: Option<PlanContext>,
    pub effect_handles: NameMap<[u8; 32]>,
    pub receipt_waits: Vec<ReceiptWait>,
    pub receipt_values: NameMap<ExprValue>,
    pub event_wait: Option<EventWait>,
    pub event_value: Option<ExprValue>,
    pub correlation_id: Option<Vec<u8>>,
    pub step_states: NameMap<StepState>,
    pub schema_index: SchemaIndex,
    pub cap_handles: NameMap<CapGrantResolution>,
}

/// The model of an event wait.
pub struct EventWaitView {
    pub step_id: Seq<char>,
    pub schema: Seq<char>,
    pub where_clause: Option<Expr>,
}

impl View for EventWait {
    type V = EventWaitView;

    open spec fn view(&self) -> EventWaitView {
        EventWaitView {
            step_id: self.step_id@,
            schema: self.schema@,
            where_clause: self.where_clause,
        }
    }
}

/// The model of the part of a run that changes.
#[verifier::ext_equal]
pub struct PlanState {
    pub completed: bool,
    pub input: ValueTree,
    pub vars: Map<Seq<char>, ValueTree>,
    pub steps: Map<Seq<char>, ValueTree>,
    pub event: Option<ValueTree>,
    pub handles: Map<Seq<char>, Seq<u8>>,
    pub waits: Seq<(Seq<u8>, Seq<char>)>,
    pub receipts: Map<Seq<char>, ValueTree>,
    pub event_wait: Option<EventWaitView>,
    pub event_value: Option<ValueTree>,
    pub states: Map<Seq<char>, StepState>,
}

pub open spec fn opt_tree(v: Option<ExprValue>) -> Option<ValueTree> {
    match v {
        Some(x) => Some(x@),
        None => None,
    }
}

/// The models of receipt waits: the hash, and the step that waits.
pub open spec fn wait_views(waits: Seq<ReceiptWait>) -> Seq<(Seq<u8>, Seq<char>)> {
    Seq::new(waits.len(), |i: int| (waits[i].intent_hash@, waits[i].step_id@))
}

impl View for PlanInstance {
    type V = PlanState;

    open spec fn view(&self) -> PlanState {
        PlanState {
            completed: self.completed,
            input: self.env.plan_input@,
            vars: deep(self.env.vars.map()),
            steps: deep(self.env.steps.map()),
            event: opt_tree(self.env.current_event),
            handles: deep(self.effect_handles.map()),
            waits: wait_views(self.receipt_waits@),
            receipts: deep(self.receipt_values.map()),
            event_wait: match self.event_wait {
                Some(w) => Some(w@),
                None => None,
            },
            event_value: opt_tree(self.event_value),
            states: self.step_states.map(),
        }
    }
}

impl PlanInstance {
    /// The part of a run that never changes is the same in both.
    pub open spec fn same_fixed(&self, other: &PlanInstance) -> bool {
        &&& self.id == other.id
        &&& self.name == other.name
        &&& self.plan == other.plan
        &&& self.context == other.context
        &&& self.correlation_id == other.correlation_id
        &&& self.schema_index == other.schema_index
        &&& self.cap_handles == other.cap_handles
    }

    /// Every step of the plan has a state, and the receipt waits are in hash order.
    pub open spec fn wf(&self) -> bool {
        &&& forall|i: int|
            0 <= i < self.plan.steps@.len() ==> self@.states.contains_key(
                (#[trigger] self.plan.steps@[i]).id@,
            )
        &&& waits_ordered(self@.waits)
    }
}

/// The waits are in hash order, and no two are for the same hash.
pub open spec fn waits_ordered(waits: Seq<(Seq<u8>, Seq<char>)>) -> bool {
    forall|i: int, j: int|
        0 <= i < j < waits.len() ==> bytes_lt((#[trigger] waits[i]).0, (#[trigger] waits[j]).0)
}

/// Nothing more happens to a step in this state.
pub open spec fn is_final(s: StepState) -> bool {
    s == StepState::Completed || s == StepState::Skipped
}

/// Every step has come to its end.
pub open spec fn all_final(states: Map<Seq<char>, StepState>) -> bool {
    forall|k: Seq<char>| #[trigger] states.contains_key(k) ==> is_final(states[k])
}

/// The run with the state of one step changed.
pub open spec fn with_state(s: PlanState, id: Seq<char>, st: StepState) -> PlanState {
    PlanState { states: s.states.insert(id, st), ..s }
}

/// The run with one step brought to its end; the last step ends the run.
pub open spec fn marked(s: PlanState, id: Seq<char>, st: StepState) -> PlanState {
    let t = with_state(s, id, st);
    PlanState { completed: t.completed || all_final(t.states), ..t }
}

/// The run in which the step `id` has completed with the value `v`.
pub open spec fn completed_with(s: PlanState, id: Seq<char>, v: ValueTree) -> PlanState {
    marked(PlanState { steps: s.steps.insert(id, v), ..s }, id, StepState::Completed)
}

} // verus!
