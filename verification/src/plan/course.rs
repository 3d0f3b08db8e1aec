//! The course of a tick, given what the host answers.
use vstd::prelude::*;

use crate::capability::CapGrantResolution;
use crate::cbor::cbor_printed;
use crate::cbor_codec::{idempotency_key, value_to_cbor};
use crate::codec::{hash_keys_valid, lit_to_value, value_to_lit};
use crate::effects::EffectIntent;
use crate::error::{is_manifest_error, KernelError};
use crate::literal::ValueLiteral;
use crate::types::TypeExpr;
use crate::value::ValueTree;

use super::asked::round_asked;
use super::readiness::{evaluated, ready_after_skips, Evaluated};
use super::steps::{assigned, effect_emitted, end_fault, ended_with, event_awaited, event_record,
    invariants_violated, receipt_taken, wanted_value};
use super::tick::{LiteralFault, PlanHost, PlanTickOutcome, StepTickControl};
use super::waits::{handle_intent, receipt_awaited};
use super::{all_final, completed_with, DefPlan, DomainEvent, Expr, ExprOrValue, PlanInstance,
    PlanState, PlanStep, PlanStepKind, StepState};

verus! {

/// The part of a run that never changes, as far as a tick reads it.
pub struct Fixed {
    pub plan: DefPlan,
    pub name: Seq<char>,
    pub correlated: bool,
    pub schemas: Map<Seq<char>, TypeExpr>,
    pub caps: Map<Seq<char>, CapGrantResolution>,
}

impl PlanInstance {
    pub open spec fn fixed(&self) -> Fixed {
        Fixed {
            plan: self.plan,
            name: self.name@,
            correlated: self.correlation_id is Some,
            schemas: self.schema_index.schemas.map(),
            caps: self.cap_handles.map(),
        }
    }
}

/// The model of a tick's report.
#[verifier::ext_equal]
pub struct Report {
    pub raised: Seq<(Seq<char>, Seq<u8>, Option<Vec<u8>>)>,
    pub waiting: Seq<Seq<u8>>,
    pub event: Option<Seq<char>>,
    pub completed: bool,
    pub intents: Seq<EffectIntent>,
    pub result: Option<ValueTree>,
    pub result_schema: Option<Seq<char>>,
    pub result_cbor: Option<Seq<u8>>,
    pub error: Option<Seq<char>>,
}

pub open spec fn raised_views(s: Seq<DomainEvent>) -> Seq<(Seq<char>, Seq<u8>, Option<Vec<u8>>)> {
    Seq::new(s.len(), |i: int| (s[i].schema@, s[i].value@, s[i].key))
}

pub open spec fn hash_views(s: Seq<[u8; 32]>) -> Seq<Seq<u8>> {
    Seq::new(s.len(), |i: int| s[i]@)
}

impl View for PlanTickOutcome {
    type V = Report;

    open spec fn view(&self) -> Report {
        Report {
            raised: raised_views(self.raised_events@),
            waiting: hash_views(self.waiting_receipts@),
            event: match self.waiting_event {
                Some(t) => Some(t@),
                None => None,
            },
            completed: self.completed,
            intents: self.intents_enqueued@,
            result: match self.result {
                Some(v) => Some(v@),
                None => None,
            },
            result_schema: match self.result_schema {
                Some(t) => Some(t@),
                None => None,
            },
            result_cbor: match self.result_cbor {
                Some(b) => Some(b@),
                None => None,
            },
            error: match self.plan_error {
                Some(e) => Some(e.code@),
                None => None,
            },
        }
    }
}

/// The report of a tick in which nothing has happened.
pub open spec fn idle_report() -> Report {
    Report {
        raised: Seq::empty(),
        waiting: Seq::empty(),
        event: None,
        completed: false,
        intents: Seq::empty(),
        result: None,
        result_schema: None,
        result_cbor: None,
        error: None,
    }
}

/// How a tick goes on: as a step says, or with an error.
pub enum Flow {
    Control(StepTickControl),
    /// A manifest error with this text.
    Manifest(Seq<char>),
    /// An idempotency key that is none, with this text.
    BadKey(Seq<char>),
    /// A step without the grant that it needs.
    NoGrant { plan: Seq<char>, cap: Seq<char> },
    /// The kernel did not take an effect.
    Refused(KernelError),
}

/// Whether a result is how a tick goes on.
pub open spec fn is_flow(r: Result<StepTickControl, KernelError>, flow: Flow) -> bool {
    match flow {
        Flow::Control(c) => r == Ok::<StepTickControl, KernelError>(c),
        _ => r matches Err(e) && is_fault(e, flow),
    }
}

/// Whether an error is the one that ends a tick.
pub open spec fn is_fault(e: KernelError, flow: Flow) -> bool {
    match flow {
        Flow::Control(_) => false,
        Flow::Manifest(t) => is_manifest_error(e, t),
        Flow::BadKey(t) => e matches KernelError::IdempotencyKeyInvalid(m) && m@ == t,
        Flow::NoGrant { plan: p, cap: c } => e matches KernelError::PlanCapabilityMissing {
            plan,
            cap,
        } && plan@ == p && cap@ == c,
        Flow::Refused(k) => e == k,
    }
}

/// Where a tick has come to.
#[verifier::ext_equal]
pub struct Ran {
    pub state: PlanState,
    pub report: Report,
    pub flow: Flow,
}

/// What the host answers to a step: the value of its expression and of its key, the intent of its
/// effect, the normal form of its value, the bytes of its result, and the values of the plan's
/// invariants once the step is done.
pub struct StepAnswers {
    pub value: Evaluated,
    pub key: Evaluated,
    pub queued: Result<EffectIntent, KernelError>,
    pub normal: Result<ValueLiteral, LiteralFault>,
    pub encoded: Result<Vec<u8>, String>,
    pub invariants: Seq<Evaluated>,
}

/// Whether every invariant of the plan has a value.
pub open spec fn fits(f: Fixed, a: StepAnswers) -> bool {
    a.invariants.len() == f.plan.invariants@.len()
}

/// What invariants say of a run.
pub open spec fn verdict(values: Seq<Evaluated>) -> Result<bool, Seq<char>> {
    invariants_violated(values, values.len())
}

/// A step is done: an invariant that is violated ends the run, and otherwise the plan is looked
/// at afresh.
pub open spec fn settled(s: PlanState, o: Report, values: Seq<Evaluated>) -> Ran {
    match verdict(values) {
        Err(t) => Ran { state: s, report: o, flow: Flow::Manifest(t) },
        Ok(false) => Ran { state: s, report: o, flow: Flow::Control(StepTickControl::RestartTick) },
        Ok(true) => Ran {
            state: PlanState { completed: true, ..s },
            report: Report { completed: true, error: Some("invariant_violation"@), ..o },
            flow: Flow::Control(StepTickControl::Return),
        },
    }
}

/// The value that stands where a plan wants one, by what the host answers.
pub open spec fn given(what: ExprOrValue, value: Evaluated, context: Seq<char>) -> Result<
    ValueTree,
    Seq<char>,
> {
    wanted_value(what, Some(evaluated(value)), context)
}

/// A value in the normal form of a type, by what the host answers.
pub open spec fn normal_value(
    v: ValueTree,
    normal: Result<ValueLiteral, LiteralFault>,
    context: Seq<char>,
    readback: Seq<char>,
) -> Result<ValueTree, Seq<char>> {
    if !hash_keys_valid(v) {
        Err(context + " literal error: invalid hash key"@)
    } else {
        match value_to_lit(v) {
            Err(e) => Err(context + " literal error: "@ + e),
            Ok(_) => match normal {
                Err(LiteralFault::Canonicalization(e)) => Err(
                    context + " canonicalization error: "@ + e@,
                ),
                Err(LiteralFault::Validation(e)) => Err(context + " validation error: "@ + e@),
                Ok(l) => match lit_to_value(l@) {
                    Ok(n) => Ok(n),
                    Err(e) => Err(context + readback + e),
                },
            },
        }
    }
}

pub open spec fn stopped(s: PlanState, o: Report, flow: Flow) -> Ran {
    Ran { state: s, report: o, flow }
}

pub open spec fn assign_ran(
    s: PlanState,
    o: Report,
    id: Seq<char>,
    expr: ExprOrValue,
    var: Seq<char>,
    a: StepAnswers,
) -> Ran {
    match given(expr, a.value, "plan assign eval error"@) {
        Err(t) => stopped(s, o, Flow::Manifest(t)),
        Ok(v) => settled(assigned(s, id, var, v), o, a.invariants),
    }
}

/// The idempotency key of an effect.
pub open spec fn emit_key(key: Option<ExprOrValue>, value: Evaluated) -> Result<Seq<u8>, Flow> {
    match key {
        None => Ok(Seq::new(32, |i: int| 0u8)),
        Some(what) => match given(what, value, "plan effect idempotency eval error"@) {
            Err(t) => Err(Flow::Manifest(t)),
            Ok(v) => match idempotency_key(v) {
                Err(t) => Err(Flow::BadKey(t)),
                Ok(k) => Ok(k),
            },
        },
    }
}

pub open spec fn emit_ran(
    f: Fixed,
    s: PlanState,
    o: Report,
    id: Seq<char>,
    params: ExprOrValue,
    cap: Seq<char>,
    handle: Seq<char>,
    key: Option<ExprOrValue>,
    a: StepAnswers,
) -> Ran {
    match given(params, a.value, "plan effect eval error"@) {
        Err(t) => stopped(s, o, Flow::Manifest(t)),
        Ok(v) => match cbor_printed(value_to_cbor(v)) {
            Err(t) => stopped(s, o, Flow::Manifest(t)),
            Ok(_) => match emit_key(key, a.key) {
                Err(flow) => stopped(s, o, flow),
                Ok(_) => if !f.caps.contains_key(id) {
                    stopped(s, o, Flow::NoGrant { plan: f.name, cap })
                } else {
                    match a.queued {
                        Err(e) => stopped(s, o, Flow::Refused(e)),
                        Ok(i) => settled(
                            effect_emitted(s, id, handle, i.intent_hash@, v),
                            Report { intents: o.intents.push(i), ..o },
                            a.invariants,
                        ),
                    }
                },
            },
        },
    }
}

pub open spec fn await_receipt_ran(
    s: PlanState,
    o: Report,
    id: Seq<char>,
    var: Seq<char>,
    a: StepAnswers,
) -> Ran {
    if s.receipts.contains_key(id) {
        settled(receipt_taken(s, id, var), o, a.invariants)
    } else {
        match handle_intent(s, evaluated(a.value)) {
            Err(t) => stopped(s, o, Flow::Manifest(t)),
            Ok(h) => Ran {
                state: receipt_awaited(s, id, h),
                report: Report { waiting: o.waiting.push(h), ..o },
                flow: Flow::Control(StepTickControl::Continue),
            },
        }
    }
}

pub open spec fn await_event_ran(
    f: Fixed,
    s: PlanState,
    o: Report,
    id: Seq<char>,
    event: Seq<char>,
    where_clause: Option<Expr>,
    var: Seq<char>,
    a: StepAnswers,
) -> Ran {
    if f.correlated && where_clause is None {
        stopped(
            s,
            o,
            Flow::Manifest("await_event requires a where predicate when correlate_by is set"@),
        )
    } else {
        let t = event_awaited(s, id, event, where_clause, var);
        if s.event_value is Some {
            settled(t, o, a.invariants)
        } else {
            Ran {
                state: t,
                report: Report { event: Some(event), ..o },
                flow: Flow::Control(StepTickControl::Return),
            }
        }
    }
}

pub open spec fn raise_ran(
    f: Fixed,
    s: PlanState,
    o: Report,
    id: Seq<char>,
    event: Seq<char>,
    value: ExprOrValue,
    a: StepAnswers,
) -> Ran {
    if !f.schemas.contains_key(event) {
        stopped(
            s,
            o,
            Flow::Manifest("event schema '"@ + event + "' not found for raise_event"@),
        )
    } else {
        match given(value, a.value, "plan raise_event eval error"@) {
            Err(t) => stopped(s, o, Flow::Manifest(t)),
            Ok(v) => match normal_value(
                v,
                a.normal,
                "plan raise_event"@,
                " value encode error: "@,
            ) {
                Err(t) => stopped(s, o, Flow::Manifest(t)),
                Ok(n) => match cbor_printed(value_to_cbor(n)) {
                    Err(t) => stopped(
                        s,
                        o,
                        Flow::Manifest("plan raise_event encode error: "@ + t),
                    ),
                    Ok(b) => settled(
                        completed_with(s, id, event_record(event, n)),
                        Report { raised: o.raised.push((event, b, None)), ..o },
                        a.invariants,
                    ),
                },
            },
        }
    }
}

/// The result of an end step, and the report that carries it.
pub open spec fn end_result(
    f: Fixed,
    o: Report,
    result: Option<ExprOrValue>,
    a: StepAnswers,
) -> Result<(ValueTree, Report), Seq<char>> {
    match end_fault(f.plan.output, result) {
        Some(t) => Err(t),
        None => match result {
            None => Ok((ValueTree::Unit, o)),
            Some(what) => match given(what, a.value, "plan end result eval error"@) {
                Err(t) => Err(t),
                Ok(v) => match f.plan.output {
                    None => Ok((v, Report { result: Some(v), ..o })),
                    Some(name) => if !f.schemas.contains_key(name@) {
                        Err(
                            "output schema '"@ + name@ + "' not found for plan '"@ + f.plan.name@
                                + "'"@,
                        )
                    } else {
                        match normal_value(v, a.normal, "plan end result"@, " decode error: "@) {
                            Err(t) => Err(t),
                            Ok(n) => match a.encoded {
                                Err(e) => Err("plan end result encode error: "@ + e@),
                                Ok(b) => Ok(
                                    (
                                        n,
                                        Report {
                                            result: Some(n),
                                            result_schema: Some(name@),
                                            result_cbor: Some(b@),
                                            ..o
                                        },
                                    ),
                                ),
                            },
                        }
                    },
                },
            },
        },
    }
}

/// A run has ended; its report says so, and whether an invariant is violated.
pub open spec fn closed_with(s: PlanState, o: Report, values: Seq<Evaluated>) -> Ran {
    let o = Report { completed: true, ..o };
    match verdict(values) {
        Err(t) => Ran { state: s, report: o, flow: Flow::Manifest(t) },
        Ok(b) => Ran {
            state: s,
            report: if b {
                Report { error: Some("invariant_violation"@), ..o }
            } else {
                o
            },
            flow: Flow::Control(StepTickControl::Return),
        },
    }
}

pub open spec fn end_ran(
    f: Fixed,
    s: PlanState,
    o: Report,
    id: Seq<char>,
    result: Option<ExprOrValue>,
    a: StepAnswers,
) -> Ran {
    match end_result(f, o, result, a) {
        Err(t) => stopped(s, o, Flow::Manifest(t)),
        Ok((v, p)) => closed_with(ended_with(s, id, v), p, a.invariants),
    }
}

/// The last of the first `n` steps with the id, or -1.
pub open spec fn step_index(steps: Seq<PlanStep>, id: Seq<char>, n: nat) -> int
    decreases n,
{
    if n == 0 || n > steps.len() {
        -1
    } else if steps[n - 1].id@ == id {
        n - 1
    } else {
        step_index(steps, id, (n - 1) as nat)
    }
}

/// What a ready step does. Effects are emitted before any other step runs.
pub open spec fn step_ran(
    f: Fixed,
    s: PlanState,
    o: Report,
    step: PlanStep,
    a: StepAnswers,
) -> Ran {
    let id = step.id@;
    match step.kind {
        PlanStepKind::Assign { expr, var } => assign_ran(s, o, id, expr, var@, a),
        PlanStepKind::EmitEffect { .. } => stopped(
            s,
            o,
            Flow::Control(StepTickControl::Continue),
        ),
        PlanStepKind::AwaitReceipt { for_expr, var } => await_receipt_ran(s, o, id, var@, a),
        PlanStepKind::AwaitEvent { event, where_clause, var } => await_event_ran(
            f,
            s,
            o,
            id,
            event@,
            where_clause,
            var@,
            a,
        ),
        PlanStepKind::RaiseEvent { event, value } => raise_ran(f, s, o, id, event@, value, a),
        PlanStepKind::End { result } => end_ran(f, s, o, id, result, a),
    }
}

/// What a step does that emits an effect; another does nothing.
pub open spec fn emitting_ran(
    f: Fixed,
    s: PlanState,
    o: Report,
    step: PlanStep,
    a: StepAnswers,
) -> Ran {
    match step.kind {
        PlanStepKind::EmitEffect { kind, params, cap, effect_id_as, idempotency_key } => emit_ran(
            f,
            s,
            o,
            step.id@,
            params,
            cap@,
            effect_id_as@,
            idempotency_key,
            a,
        ),
        _ => stopped(s, o, Flow::Control(StepTickControl::Continue)),
    }
}

pub open spec fn goes_on(flow: Flow) -> bool {
    flow == Flow::Control(StepTickControl::Continue) || flow == Flow::Control(
        StepTickControl::RestartTick,
    )
}

/// Whether the step with the id emits an effect.
pub open spec fn emits_effect(steps: Seq<PlanStep>, id: Seq<char>) -> bool {
    let k = step_index(steps, id, steps.len());
    k >= 0 && steps[k].kind is EmitEffect
}

/// The first `n` of the ready steps emit their effects, as far as nothing ends the tick.
pub open spec fn emit_pass(
    f: Fixed,
    s: PlanState,
    o: Report,
    ids: Seq<Seq<char>>,
    answers: Seq<StepAnswers>,
    n: nat,
) -> Ran
    decreases n,
{
    if n == 0 {
        stopped(s, o, Flow::Control(StepTickControl::Continue))
    } else {
        let prev = emit_pass(f, s, o, ids, answers, (n - 1) as nat);
        if goes_on(prev.flow) && emits_effect(f.plan.steps@, ids[n - 1]) {
            let steps = f.plan.steps@;
            emitting_ran(
                f,
                prev.state,
                prev.report,
                steps[step_index(steps, ids[n - 1], steps.len())],
                answers[n - 1],
            )
        } else {
            prev
        }
    }
}

/// The first `n` of the ready steps run, until one is done or ends the tick. The second part says
/// whether one has begun to wait for a receipt.
pub open spec fn step_pass(
    f: Fixed,
    s: PlanState,
    o: Report,
    ids: Seq<Seq<char>>,
    answers: Seq<StepAnswers>,
    n: nat,
) -> (Ran, bool)
    decreases n,
{
    if n == 0 {
        (stopped(s, o, Flow::Control(StepTickControl::Continue)), false)
    } else {
        let prev = step_pass(f, s, o, ids, answers, (n - 1) as nat);
        let steps = f.plan.steps@;
        let k = step_index(steps, ids[n - 1], steps.len());
        if prev.0.flow == Flow::Control(StepTickControl::Continue) && k >= 0 {
            let ran = step_ran(f, prev.0.state, prev.0.report, steps[k], answers[n - 1]);
            (
                ran,
                prev.1 || (steps[k].kind is AwaitReceipt && ran.flow == Flow::Control(
                    StepTickControl::Continue,
                )),
            )
        } else {
            prev
        }
    }
}

pub open spec fn awaited_hashes(s: PlanState) -> Seq<Seq<u8>> {
    Seq::new(s.waits.len(), |i: int| s.waits[i].0)
}

/// A report that names every receipt that is waited for.
pub open spec fn with_waits(s: PlanState, o: Report) -> Report {
    Report { waiting: o.waiting + awaited_hashes(s), ..o }
}

/// A tick in which no step can run: the run waits, or has come to its end.
pub open spec fn rest(s: PlanState, o: Report, values: Seq<Evaluated>) -> Ran {
    let back = Flow::Control(StepTickControl::Return);
    if s.waits.len() > 0 {
        stopped(s, with_waits(s, o), back)
    } else if s.event_wait is Some {
        stopped(s, Report { event: Some(s.event_wait->0.schema), ..o }, back)
    } else if all_final(s.states) {
        closed_with(PlanState { completed: true, ..s }, o, values)
    } else {
        stopped(s, o, back)
    }
}

/// A tick in which no step that ran was done.
pub open spec fn held(s: PlanState, o: Report, registered: bool, values: Seq<Evaluated>) -> Ran {
    let back = Flow::Control(StepTickControl::Return);
    if registered {
        stopped(s, o, back)
    } else if s.waits.len() > 0 {
        stopped(s, with_waits(s, o), back)
    } else if all_final(s.states) {
        let t = PlanState { completed: true, ..s };
        let p = Report { completed: true, ..o };
        match verdict(values) {
            Err(e) => stopped(t, p, Flow::Manifest(e)),
            Ok(_) => stopped(t, p, back),
        }
    } else {
        stopped(s, o, back)
    }
}

/// What the host answers while a plan is looked at once.
pub struct RoundAnswers {
    pub guards: Seq<Option<Evaluated>>,
    pub emits: Seq<StepAnswers>,
    pub steps: Seq<StepAnswers>,
    pub invariants: Seq<Evaluated>,
}

/// The edge at `i` has a guard that decides something now.
pub open spec fn guard_needed(f: Fixed, s: PlanState, i: int) -> bool {
    let edge = f.plan.edges@[i];
    &&& edge.when is Some
    &&& s.states.contains_key(edge.from@)
    &&& s.states[edge.from@] == StepState::Completed
    &&& s.states.contains_key(edge.to@)
    &&& s.states[edge.to@] == StepState::Pending
}

/// Whether answers are to what is asked of a run at `s`: every guard that decides something, what
/// the ready steps ask, and the invariants.
pub open spec fn round_fits(f: Fixed, s: PlanState, a: RoundAnswers) -> bool {
    let ready = ready_after_skips(s, f.plan.steps@, f.plan.edges@, a.guards).1;
    &&& a.guards.len() == f.plan.edges@.len()
    &&& forall|i: int|
        0 <= i < a.guards.len() && guard_needed(f, s, i) ==> (#[trigger] a.guards[i]) is Some
    &&& ready matches Ok(ids) ==> a.emits.len() == ids.len() && a.steps.len() == ids.len()
    &&& forall|i: int| 0 <= i < a.emits.len() ==> fits(f, #[trigger] a.emits[i])
    &&& forall|i: int| 0 <= i < a.steps.len() ==> fits(f, #[trigger] a.steps[i])
    &&& a.invariants.len() == f.plan.invariants@.len()
}

/// A plan is looked at once: skips spread, effects are emitted, and steps run.
pub open spec fn round(f: Fixed, s: PlanState, o: Report, a: RoundAnswers) -> Ran {
    let after = ready_after_skips(s, f.plan.steps@, f.plan.edges@, a.guards);
    match after.1 {
        Err(t) => stopped(after.0, o, Flow::Manifest(t)),
        Ok(ids) => if ids.len() == 0 {
            rest(after.0, o, a.invariants)
        } else {
            let first = emit_pass(f, after.0, o, ids, a.emits, ids.len());
            if first.flow != Flow::Control(StepTickControl::Continue) {
                first
            } else {
                let (ran, registered) = step_pass(
                    f,
                    first.state,
                    first.report,
                    ids,
                    a.steps,
                    ids.len(),
                );
                if ran.flow != Flow::Control(StepTickControl::Continue) {
                    ran
                } else {
                    held(ran.state, ran.report, registered, a.invariants)
                }
            }
        },
    }
}

/// Where a tick has come to after `n` looks at the plan.
pub open spec fn course(
    f: Fixed,
    s: PlanState,
    o: Report,
    answers: Seq<RoundAnswers>,
    n: nat,
) -> Ran
    decreases n,
{
    if n == 0 {
        stopped(s, o, Flow::Control(StepTickControl::RestartTick))
    } else {
        let prev = course(f, s, o, answers, (n - 1) as nat);
        if prev.flow == Flow::Control(StepTickControl::RestartTick) {
            round(f, prev.state, prev.report, answers[n - 1])
        } else {
            prev
        }
    }
}

/// Whether answers are to what is asked where a tick has come to, and are what the host says.
pub open spec fn round_due<H: PlanHost>(
    mind: H::Evaluator,
    f: Fixed,
    at: Ran,
    a: RoundAnswers,
) -> bool {
    round_fits(f, at.state, a) && round_asked::<H>(mind, f, at.state, at.report, a)
}

/// Whether a tick went as the plan says, for what the host answers to each question that is due: it
/// looked at the plan until it had to wait, was done or failed.
pub open spec fn went<H: PlanHost>(
    mind: H::Evaluator,
    f: Fixed,
    s: PlanState,
    answers: Seq<RoundAnswers>,
    t: PlanState,
    r: Result<PlanTickOutcome, KernelError>,
) -> bool {
    let ran = course(f, s, idle_report(), answers, answers.len());
    &&& forall|i: int|
        #![trigger answers[i]]
        0 <= i < answers.len() ==> round_due::<H>(
            mind,
            f,
            course(f, s, idle_report(), answers, i as nat),
            answers[i],
        )
    &&& ran.state == t
    &&& match r {
        Ok(out) => ran.flow == Flow::Control(StepTickControl::Return) && out@ == ran.report,
        Err(e) => is_fault(e, ran.flow),
    }
}

pub proof fn lemma_emit_pass_reads(
    f: Fixed,
    s: PlanState,
    o: Report,
    ids: Seq<Seq<char>>,
    a: Seq<StepAnswers>,
    b: Seq<StepAnswers>,
    n: nat,
)
    requires
        forall|i: int| 0 <= i < n ==> #[trigger] a[i] == b[i],
    ensures
        emit_pass(f, s, o, ids, a, n) == emit_pass(f, s, o, ids, b, n),
    decreases n,
{
    if n > 0 {
        lemma_emit_pass_reads(f, s, o, ids, a, b, (n - 1) as nat);
        assert(a[n - 1] == b[n - 1]);
    }
}

pub proof fn lemma_step_pass_reads(
    f: Fixed,
    s: PlanState,
    o: Report,
    ids: Seq<Seq<char>>,
    a: Seq<StepAnswers>,
    b: Seq<StepAnswers>,
    n: nat,
)
    requires
        forall|i: int| 0 <= i < n ==> #[trigger] a[i] == b[i],
    ensures
        step_pass(f, s, o, ids, a, n) == step_pass(f, s, o, ids, b, n),
    decreases n,
{
    if n > 0 {
        lemma_step_pass_reads(f, s, o, ids, a, b, (n - 1) as nat);
        assert(a[n - 1] == b[n - 1]);
    }
}

pub proof fn lemma_emit_pass_stands(
    f: Fixed,
    s: PlanState,
    o: Report,
    ids: Seq<Seq<char>>,
    a: Seq<StepAnswers>,
    k: nat,
    n: nat,
)
    requires
        k <= n,
        !goes_on(emit_pass(f, s, o, ids, a, k).flow),
    ensures
        emit_pass(f, s, o, ids, a, n) == emit_pass(f, s, o, ids, a, k),
    decreases n,
{
    if k < n {
        lemma_emit_pass_stands(f, s, o, ids, a, k, (n - 1) as nat);
    }
}

pub proof fn lemma_step_pass_stands(
    f: Fixed,
    s: PlanState,
    o: Report,
    ids: Seq<Seq<char>>,
    a: Seq<StepAnswers>,
    k: nat,
    n: nat,
)
    requires
        k <= n,
        step_pass(f, s, o, ids, a, k).0.flow != Flow::Control(StepTickControl::Continue),
    ensures
        step_pass(f, s, o, ids, a, n) == step_pass(f, s, o, ids, a, k),
    decreases n,
{
    if k < n {
        lemma_step_pass_stands(f, s, o, ids, a, k, (n - 1) as nat);
    }
}

pub proof fn lemma_course_reads(
    f: Fixed,
    s: PlanState,
    o: Report,
    a: Seq<RoundAnswers>,
    b: Seq<RoundAnswers>,
    n: nat,
)
    requires
        forall|i: int| 0 <= i < n ==> #[trigger] a[i] == b[i],
    ensures
        course(f, s, o, a, n) == course(f, s, o, b, n),
    decreases n,
{
    if n > 0 {
        lemma_course_reads(f, s, o, a, b, (n - 1) as nat);
        assert(a[n - 1] == b[n - 1]);
    }
}

} // verus!
