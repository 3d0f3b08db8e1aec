//! Running a plan as far as it goes.
use vstd::prelude::*;

use crate::capability::CapGrantResolution;
use crate::cbor_codec::{encode_value, idempotency_key_from_value};
use crate::codec::{expr_value_to_literal, hash_keys_known, literal_to_value, value_to_lit};
use crate::effects::{intents_view, EffectIntent, IntentView};
use crate::error::{is_manifest_error, KernelError};
use crate::literal::ValueLiteral;
use crate::text::{join2, join3, str_eq};
use crate::types::{SchemaIndex, TypeExpr};
use crate::value::ExprValue;

use super::asked::{assign_asked, await_event_asked, await_receipt_asked, effect_asked, emit_asked,
    emit_asked_at, emits_asked, emitting_asked, encode_asked, end_asked, end_value_asked, env_at,
    eval_asked, guards_asked, held_asked, invariants_asked, normal_asked, raise_asked, rest_asked,
    round_asked, step_asked, step_asked_at, steps_asked, wanted_asked};
use super::course::{awaited_hashes, guard_needed, held, assign_ran, await_event_ran,
    await_receipt_ran, course, emit_key, emit_pass, emit_ran, end_result, emits_effect,
    emitting_ran, end_ran, fits, given, idle_report, is_fault, is_flow, lemma_course_reads,
    lemma_emit_pass_reads, lemma_emit_pass_stands, lemma_step_pass_reads, lemma_step_pass_stands,
    normal_value, goes_on, raise_ran, rest, round, round_due, round_fits, settled, step_index, step_pass, step_ran,
    verdict, went, with_waits, Fixed, Flow, Ran, Report, RoundAnswers, StepAnswers};
use super::readiness::{ids_view, lemma_pending_drops, lemma_scan_skip, lemma_skipped_states,
    pending_count, ready_after_skips, scan_steps, skipped, Evaluated};
use super::steps::{check_end, eval_expr_or_value, is_violation, judge_invariants};
use super::waits::{lemma_wait_index, lemma_wait_insert, waits_for};
use super::{is_final, DomainEvent, Expr, ExprEnv, ExprOrValue, PlanError, PlanInstance,
    PlanState, PlanStep, PlanStepKind, StepState};

verus! {

/// Why a literal does not fit a type.
#[derive(Debug)]
pub enum LiteralFault {
    Canonicalization(String),
    Validation(String),
}

/// What knows the expressions and the literals of plans.
pub trait PlanEvaluator {
    /// Evaluates an expression.
    fn eval(&self, expr: &Expr, env: &ExprEnv) -> Evaluated;

    /// Brings a literal into the normal form of a type.
    fn normalize_literal(
        &self,
        literal: ValueLiteral,
        schema: &TypeExpr,
        schema_name: &str,
        schemas: &SchemaIndex,
    ) -> Result<ValueLiteral, LiteralFault>;

    /// Encodes a value so that it can be read back as a value.
    fn encode_value(&self, value: &ExprValue) -> Result<Vec<u8>, String>;
}

/// What a plan needs from the world around it.
pub trait PlanHost {
    type Evaluator: PlanEvaluator;

    /// What expressions and literals are asked of.
    spec fn mind(&self) -> Self::Evaluator;

    /// The effects that were handed to the kernel, in order.
    spec fn handed(&self) -> Seq<IntentView>;

    fn evaluator(&self) -> (r: &Self::Evaluator)
        ensures
            *r == self.mind(),
    ;

    /// Hands an effect to the kernel.
    fn enqueue_effect(
        &mut self,
        plan: &str,
        kind: &str,
        grant: &CapGrantResolution,
        params_cbor: Vec<u8>,
        idempotency_key: [u8; 32],
    ) -> (r: Result<EffectIntent, KernelError>)
        ensures
            final(self).mind() == old(self).mind(),
            final(self).handed() == match r {
                Ok(i) => old(self).handed().push(i@),
                Err(_) => old(self).handed(),
            },
    ;
}

/// What came of a tick.
#[derive(Debug)]
pub struct PlanTickOutcome {
    pub raised_events: Vec<DomainEvent>,
    pub waiting_receipts: Vec<[u8; 32]>,
    pub waiting_event: Option<String>,
    pub completed: bool,
    pub intents_enqueued: Vec<EffectIntent>,
    pub result: Option<ExprValue>,
    pub result_schema: Option<String>,
    pub result_cbor: Option<Vec<u8>>,
    pub plan_error: Option<PlanError>,
}

impl PlanTickOutcome {
    /// Nothing has happened.
    pub open spec fn is_idle(&self) -> bool {
        &&& self.raised_events@.len() == 0
        &&& self.waiting_receipts@.len() == 0
        &&& self.waiting_event is None
        &&& self.intents_enqueued@.len() == 0
        &&& self.result is None
        &&& self.result_schema is None
        &&& self.result_cbor is None
        &&& self.plan_error is None
    }

    pub fn new() -> (r: Self)
        ensures
            r.is_idle(),
            !r.completed,
            r@ == idle_report(),
    {
        let r = PlanTickOutcome {
            raised_events: Vec::new(),
            waiting_receipts: Vec::new(),
            waiting_event: None,
            completed: false,
            intents_enqueued: Vec::new(),
            result: None,
            result_schema: None,
            result_cbor: None,
            plan_error: None,
        };
        assert(r@ =~= idle_report());
        r
    }
}

/// How a tick goes on after a step.
#[derive(Clone, Copy, Debug, PartialEq, Eq, Structural)]
pub enum StepTickControl {
    Continue,
    RestartTick,
    Return,
}

/// Only the state of the step `id` has changed, if any, and it does not wait to be run again.
pub open spec fn touched(
    a: Map<Seq<char>, StepState>,
    b: Map<Seq<char>, StepState>,
    id: Seq<char>,
) -> bool {
    b == a || (b == a.insert(id, b[id]) && b[id] != StepState::Pending)
}

/// Steps stay where they have ended, and none is pending that was not.
pub open spec fn progress(
    a: Map<Seq<char>, StepState>,
    b: Map<Seq<char>, StepState>,
) -> bool {
    forall|k: Seq<char>|
        #![trigger b[k]]
        #![trigger b.contains_key(k)]
        a.contains_key(k) ==> {
            &&& b.contains_key(k)
            &&& is_final(a[k]) ==> b[k] == a[k]
            &&& b[k] == StepState::Pending ==> a[k] == StepState::Pending
        }
}

/// A tick's report agrees with the run: what is reported as completed is completed, an error ends
/// the run, and every receipt and event that is reported as waited for is waited for.
pub open spec fn report_agrees(out: &PlanTickOutcome, s: PlanState) -> bool {
    &&& out.completed ==> s.completed
    &&& out.plan_error is Some ==> out.completed
    &&& out.waiting_event matches Some(t) ==> s.event_wait is Some && s.event_wait->0.schema == t@
    &&& forall|i: int|
        0 <= i < out.waiting_receipts@.len() ==> waits_for(
            s.waits,
            (#[trigger] out.waiting_receipts@[i])@,
        )
}

impl PlanInstance {
    /// Asks the host for the value of an expression.
    fn ask<E: PlanEvaluator>(&self, expr: &Expr, mind: &E) -> (r: Evaluated)
        ensures
            eval_asked::<E>(*mind, *expr, self@, r),
    {
        let env = &self.env;
        assert(env_at(*env, self@));
        mind.eval(expr, env)
    }

    /// Evaluates the guards that decide something now.
    fn eval_guards<E: PlanEvaluator>(&self, mind: &E) -> (r: Vec<Option<Evaluated>>)
        ensures
            self.guards_known(r@),
            guards_asked::<E>(*mind, self.fixed(), self@, r@),
    {
        let mut out: Vec<Option<Evaluated>> = Vec::new();
        let mut i: usize = 0;
        while i < self.plan.edges.len()
            invariant
                i <= self.plan.edges@.len(),
                out@.len() == i,
                forall|k: int|
                    0 <= k < i && self.needs_guard(k) ==> (#[trigger] out@[k]) is Some
                        && eval_asked::<E>(
                        *mind,
                        self.plan.edges@[k].when->Some_0,
                        self@,
                        out@[k]->Some_0,
                    ),
            decreases self.plan.edges@.len() - i,
        {
            let edge = &self.plan.edges[i];
            let needed = match (
                self.step_states.get(edge.from.as_str()),
                self.step_states.get(edge.to.as_str()),
            ) {
                (Some(StepState::Completed), Some(StepState::Pending)) => true,
                _ => false,
            };
            match &edge.when {
                Some(expr) => {
                    if needed {
                        let e = self.ask(expr, mind);
                        out.push(Some(e));
                    } else {
                        out.push(None);
                    }
                },
                None => {
                    out.push(None);
                },
            }
            i += 1;
        }
        out
    }

    /// Judges the plan's invariants on the run as it stands.
    fn enforce_invariants<E: PlanEvaluator>(&self, mind: &E) -> (r: (
        Result<Option<PlanError>, KernelError>,
        Ghost<Seq<Evaluated>>,
    ))
        ensures
            r.1@.len() == self.plan.invariants@.len(),
            invariants_asked::<E>(*mind, self.fixed(), self@, r.1@),
            match (r.0, verdict(r.1@)) {
                (Ok(None), Ok(b)) => !b,
                (Ok(Some(e)), Ok(b)) => b && is_violation(e),
                (Err(e), Err(t)) => is_manifest_error(e, t),
                _ => false,
            },
    {
        let mut values: Vec<Evaluated> = Vec::new();
        let mut i: usize = 0;
        while i < self.plan.invariants.len()
            invariant
                i <= self.plan.invariants@.len(),
                values@.len() == i,
                forall|k: int|
                    0 <= k < i ==> eval_asked::<E>(
                        *mind,
                        self.plan.invariants@[k],
                        self@,
                        #[trigger] values@[k],
                    ),
            decreases self.plan.invariants@.len() - i,
        {
            values.push(self.ask(&self.plan.invariants[i], mind));
            i += 1;
        }
        (judge_invariants(&values), Ghost(values@))
    }

    /// The value that stands where a plan wants one.
    fn value_of<E: PlanEvaluator>(&self, what: &ExprOrValue, context: &str, mind: &E) -> (r: (
        Result<ExprValue, KernelError>,
        Ghost<Evaluated>,
    ))
        ensures
            match (r.0, given(*what, r.1@, context@)) {
                (Ok(v), Ok(t)) => v@ == t,
                (Err(e), Err(t)) => is_manifest_error(e, t),
                _ => false,
            },
            wanted_asked::<E>(*mind, *what, self@, r.1@),
    {
        let evaluated = match what {
            ExprOrValue::Expr(e) => Some(self.ask(e, mind)),
            _ => None,
        };
        let ghost answer = if evaluated is Some {
            evaluated->0
        } else {
            Ok(ExprValue::Unit)
        };
        (eval_expr_or_value(what, evaluated, context), Ghost(answer))
    }

    /// Judges the invariants after a step has completed.
    fn after_step<E: PlanEvaluator>(&mut self, mind: &E, out: &mut PlanTickOutcome) -> (r: (
        Result<StepTickControl, KernelError>,
        Ghost<Seq<Evaluated>>,
    ))
        requires
            old(self).wf(),
            report_agrees(old(out), old(self)@),
        ensures
            final(self).same_fixed(old(self)),
            final(self).wf(),
            final(self)@.states == old(self)@.states,
            report_agrees(final(out), final(self)@),
            r.0 matches Ok(c) ==> c != StepTickControl::Continue,
            final(out).waiting_event == old(out).waiting_event,
            r.0 == Ok::<_, KernelError>(StepTickControl::RestartTick) ==> final(self)@
                == old(self)@,
            r.1@.len() == old(self).plan.invariants@.len(),
            invariants_asked::<E>(*mind, old(self).fixed(), old(self)@, r.1@),
            ran_is(settled(old(self)@, old(out)@, r.1@), final(self)@, final(out)@, r.0),
            final(out).intents_enqueued@ == old(out).intents_enqueued@,
    {
        let (judged, values) = self.enforce_invariants(mind);
        match judged {
            Err(e) => (Err(e), values),
            Ok(None) => (Ok(StepTickControl::RestartTick), values),
            Ok(Some(err)) => {
                out.completed = true;
                self.completed = true;
                out.plan_error = Some(err);
                assert(self@ =~= (PlanState { completed: true, ..old(self)@ }));
                assert(out@ =~= (Report {
                    completed: true,
                    error: Some("invariant_violation"@),
                    ..old(out)@
                }));
                (Ok(StepTickControl::Return), values)
            },
        }
    }

    /// The position of the step `id` in the plan; of steps with one id the last counts.
    fn find_step(&self, id: &str) -> (r: Option<usize>)
        ensures
            match r {
                Some(k) => k < self.plan.steps@.len() && self.plan.steps@[k as int].id@ == id@ && k
                    == step_index(self.plan.steps@, id@, self.plan.steps@.len()),
                None => step_index(self.plan.steps@, id@, self.plan.steps@.len()) == -1,
            },
    {
        let mut i: usize = self.plan.steps.len();
        while i > 0
            invariant
                i <= self.plan.steps@.len(),
                step_index(self.plan.steps@, id@, self.plan.steps@.len()) == step_index(
                    self.plan.steps@,
                    id@,
                    i as nat,
                ),
            decreases i,
        {
            i -= 1;
            if str_eq(self.plan.steps[i].id.as_str(), id) {
                return Some(i);
            }
        }
        None
    }
}

/// Whether a run, its report and a result are where a tick has come to.
pub open spec fn ran_is(
    ran: Ran,
    s: PlanState,
    o: Report,
    r: Result<StepTickControl, KernelError>,
) -> bool {
    &&& ran.state == s
    &&& ran.report == o
    &&& is_flow(r, ran.flow)
}

/// Answers of which none was asked for.
spec fn unasked(f: Fixed) -> StepAnswers {
    StepAnswers {
        value: Ok(ExprValue::Unit),
        key: Ok(ExprValue::Unit),
        queued: Err(KernelError::SecretResolverMissing),
        normal: Ok(ValueLiteral::Null),
        encoded: Err(arbitrary()),
        invariants: Seq::new(f.plan.invariants@.len(), |i: int| Ok(ExprValue::Unit)),
    }
}

/// What every step handler keeps: the fixed part of the run, the states of the other steps, and
/// the agreement of the report with the run.
pub open spec fn step_kept(
    a: &PlanInstance,
    b: &PlanInstance,
    out: &PlanTickOutcome,
    id: Seq<char>,
) -> bool {
    &&& b.same_fixed(a)
    &&& b.wf()
    &&& touched(a@.states, b@.states, id)
    &&& report_agrees(out, b@)
}

impl PlanInstance {
    fn handle_assign_step<E: PlanEvaluator>(
        &mut self,
        step_id: &str,
        expr: &ExprOrValue,
        var: &String,
        mind: &E,
        out: &mut PlanTickOutcome,
    ) -> (r: (Result<StepTickControl, KernelError>, Ghost<StepAnswers>))
        requires
            old(self).wf(),
            report_agrees(old(out), old(self)@),
            old(out).waiting_event is None,
        ensures
            step_kept(old(self), final(self), final(out), step_id@),
            r.0 is Ok && r.0->Ok_0 != StepTickControl::Return ==> final(out).waiting_event is None,
            r.0 matches Ok(c) ==> c != StepTickControl::Continue && final(self)@.states[step_id@]
                == StepState::Completed,
            fits(old(self).fixed(), r.1@),
            assign_asked::<E>(*mind, old(self).fixed(), old(self)@, step_id@, *expr, var@, r.1@),
            ran_is(
                assign_ran(old(self)@, old(out)@, step_id@, *expr, var@, r.1@),
                final(self)@,
                final(out)@,
                r.0,
            ),
            final(out).intents_enqueued@ == old(out).intents_enqueued@,
    {
        let ghost answers = unasked(self.fixed());
        let (value, answer) = self.value_of(expr, "plan assign eval error", mind);
        let ghost answers = StepAnswers { value: answer@, ..answers };
        let value = match value {
            Ok(v) => v,
            Err(e) => {
                return (Err(e), Ghost(answers));
            },
        };
        self.apply_assign(step_id, var, value);
        let (control, values) = self.after_step(mind, out);
        (control, Ghost(StepAnswers { invariants: values@, ..answers }))
    }

    /// The idempotency key of an effect.
    fn emit_key_of<E: PlanEvaluator>(&self, key: &Option<ExprOrValue>, mind: &E) -> (r: (
        Result<[u8; 32], KernelError>,
        Ghost<Evaluated>,
    ))
        ensures
            match (r.0, emit_key(*key, r.1@)) {
                (Ok(k), Ok(b)) => k@ == b,
                (Err(e), Err(flow)) => is_fault(e, flow),
                _ => false,
            },
            *key is Some ==> wanted_asked::<E>(*mind, key->Some_0, self@, r.1@),
    {
        match key {
            None => {
                let zero: [u8; 32] = [0u8; 32];
                assert(zero@ =~= Seq::new(32, |i: int| 0u8));
                (Ok(zero), Ghost(Ok(ExprValue::Unit)))
            },
            Some(what) => {
                let (value, answer) = self.value_of(
                    what,
                    "plan effect idempotency eval error",
                    mind,
                );
                match value {
                    Err(e) => (Err(e), answer),
                    Ok(v) => (idempotency_key_from_value(&v), answer),
                }
            },
        }
    }

    fn handle_emit_effect_step<H: PlanHost>(
        &mut self,
        step_id: &str,
        kind: &String,
        params: &ExprOrValue,
        cap: &String,
        effect_id_as: &String,
        idempotency_key: &Option<ExprOrValue>,
        host: &mut H,
        out: &mut PlanTickOutcome,
        Ghost(earlier): Ghost<Seq<IntentView>>,
    ) -> (r: (Result<StepTickControl, KernelError>, Ghost<StepAnswers>))
        requires
            old(self).wf(),
            report_agrees(old(out), old(self)@),
            old(out).waiting_event is None,
            old(host).handed() == earlier + intents_view(old(out).intents_enqueued@),
        ensures
            step_kept(old(self), final(self), final(out), step_id@),
            r.0 is Ok && r.0->Ok_0 != StepTickControl::Return ==> final(out).waiting_event is None,
            r.0 matches Ok(c) ==> c != StepTickControl::Continue && final(self)@.states[step_id@]
                == StepState::Completed,
            fits(old(self).fixed(), r.1@),
            emit_asked::<H>(
                old(host).mind(),
                old(self).fixed(),
                old(self)@,
                step_id@,
                kind@,
                *params,
                effect_id_as@,
                *idempotency_key,
                r.1@,
            ),
            ran_is(
                emit_ran(
                    old(self).fixed(),
                    old(self)@,
                    old(out)@,
                    step_id@,
                    *params,
                    cap@,
                    effect_id_as@,
                    *idempotency_key,
                    r.1@,
                ),
                final(self)@,
                final(out)@,
                r.0,
            ),
            final(host).handed() == earlier + intents_view(final(out).intents_enqueued@),
            final(host).mind() == old(host).mind(),
    {
        let ghost answers = unasked(self.fixed());
        let (value, answer) = self.value_of(params, "plan effect eval error", host.evaluator());
        let ghost answers = StepAnswers { value: answer@, ..answers };
        let params_value = match value {
            Ok(v) => v,
            Err(e) => {
                return (Err(e), Ghost(answers));
            },
        };
        let params_cbor = match encode_value(&params_value) {
            Ok(b) => b,
            Err(e) => {
                return (Err(KernelError::Manifest(e)), Ghost(answers));
            },
        };
        let (key, answer) = self.emit_key_of(idempotency_key, host.evaluator());
        let ghost answers = StepAnswers { key: answer@, ..answers };
        let key: [u8; 32] = match key {
            Ok(k) => k,
            Err(e) => {
                return (Err(e), Ghost(answers));
            },
        };
        let queued = match self.cap_handles.get(step_id) {
            None => {
                return (
                    Err(
                        KernelError::PlanCapabilityMissing {
                            plan: self.name.clone(),
                            cap: cap.clone(),
                        },
                    ),
                    Ghost(answers),
                );
            },
            Some(grant) => {
                let ghost params_bytes = params_cbor;
                let plan_name = self.name.as_str();
                let told = host.enqueue_effect(plan_name, kind.as_str(), grant, params_cbor, key);
                assert(effect_asked::<H>(
                    self.fixed().name,
                    kind@,
                    self.fixed().caps[step_id@],
                    params_bytes@,
                    key@,
                    told,
                ));
                told
            },
        };
        let ghost answers = StepAnswers { queued, ..answers };
        let intent = match queued {
            Ok(i) => i,
            Err(e) => {
                return (Err(e), Ghost(answers));
            },
        };
        let intent_hash = intent.intent_hash;
        let ghost before = out@;
        out.intents_enqueued.push(intent);
        assert(host.handed() =~= earlier + intents_view(out.intents_enqueued@));
        assert(out@ =~= (Report { intents: before.intents.push(intent), ..before }));
        self.apply_emit(step_id, effect_id_as, intent_hash, params_value);
        let (control, values) = self.after_step(host.evaluator(), out);
        (control, Ghost(StepAnswers { invariants: values@, ..answers }))
    }

    fn handle_await_receipt_step<E: PlanEvaluator>(
        &mut self,
        step_id: &str,
        for_expr: &Expr,
        var: &String,
        mind: &E,
        out: &mut PlanTickOutcome,
        waiting_registered: &mut bool,
    ) -> (r: (Result<StepTickControl, KernelError>, Ghost<StepAnswers>))
        requires
            old(self).wf(),
            report_agrees(old(out), old(self)@),
            old(out).waiting_event is None,
        ensures
            step_kept(old(self), final(self), final(out), step_id@),
            r.0 is Ok && r.0->Ok_0 != StepTickControl::Return ==> final(out).waiting_event is None,
            r.0 matches Ok(c) ==> if c == StepTickControl::Continue {
                final(self)@.states[step_id@] == StepState::WaitingReceipt
            } else {
                final(self)@.states[step_id@] == StepState::Completed
            },
            *final(waiting_registered) == (*old(waiting_registered) || r.0 == Ok::<_, KernelError>(
                StepTickControl::Continue,
            )),
            fits(old(self).fixed(), r.1@),
            await_receipt_asked::<E>(
                *mind,
                old(self).fixed(),
                old(self)@,
                step_id@,
                *for_expr,
                var@,
                r.1@,
            ),
            ran_is(
                await_receipt_ran(old(self)@, old(out)@, step_id@, var@, r.1@),
                final(self)@,
                final(out)@,
                r.0,
            ),
            final(out).intents_enqueued@ == old(out).intents_enqueued@,
    {
        let ghost answers = unasked(self.fixed());
        if self.take_receipt(step_id, var) {
            let (control, values) = self.after_step(mind, out);
            return (control, Ghost(StepAnswers { invariants: values@, ..answers }));
        }
        let handle = self.ask(for_expr, mind);
        let ghost answers = StepAnswers { value: handle, ..answers };
        let ghost before = self@.waits;
        match self.register_receipt_wait(step_id, handle) {
            Err(e) => (Err(e), Ghost(answers)),
            Ok(hash) => {
                proof {
                    assert forall|h: Seq<u8>| #[trigger] waits_for(self@.waits, h) == (h == hash@
                        || waits_for(before, h)) by {
                        lemma_wait_insert(before, hash@, step_id@, h);
                    }
                }
                out.waiting_receipts.push(hash);
                assert(out@ =~= (Report {
                    waiting: old(out)@.waiting.push(hash@),
                    ..old(out)@
                }));
                *waiting_registered = true;
                (Ok(StepTickControl::Continue), Ghost(answers))
            },
        }
    }

    fn handle_await_event_step<E: PlanEvaluator>(
        &mut self,
        step_id: &str,
        event: &String,
        where_clause: &Option<Expr>,
        var: &String,
        mind: &E,
        out: &mut PlanTickOutcome,
    ) -> (r: (Result<StepTickControl, KernelError>, Ghost<StepAnswers>))
        requires
            old(self).wf(),
            report_agrees(old(out), old(self)@),
            old(out).waiting_event is None,
        ensures
            step_kept(old(self), final(self), final(out), step_id@),
            r.0 is Ok && r.0->Ok_0 != StepTickControl::Return ==> final(out).waiting_event is None,
            r.0 matches Ok(c) ==> c != StepTickControl::Continue,
            r.0 == Ok::<_, KernelError>(StepTickControl::RestartTick)
                ==> final(self)@.states[step_id@] == StepState::Completed,
            fits(old(self).fixed(), r.1@),
            await_event_asked::<E>(
                *mind,
                old(self).fixed(),
                old(self)@,
                step_id@,
                event@,
                *where_clause,
                var@,
                r.1@,
            ),
            ran_is(
                await_event_ran(
                    old(self).fixed(),
                    old(self)@,
                    old(out)@,
                    step_id@,
                    event@,
                    *where_clause,
                    var@,
                    r.1@,
                ),
                final(self)@,
                final(out)@,
                r.0,
            ),
            final(out).intents_enqueued@ == old(out).intents_enqueued@,
    {
        let ghost answers = unasked(self.fixed());
        match self.apply_await_event(step_id, event, where_clause, var) {
            Err(e) => (Err(e), Ghost(answers)),
            Ok(true) => {
                let (control, values) = self.after_step(mind, out);
                (control, Ghost(StepAnswers { invariants: values@, ..answers }))
            },
            Ok(false) => {
                out.waiting_event = Some(event.clone());
                assert(out@ =~= (Report { event: Some(event@), ..old(out)@ }));
                (Ok(StepTickControl::Return), Ghost(answers))
            },
        }
    }

    /// A value in the normal form of a type.
    fn normalized<E: PlanEvaluator>(
        &self,
        value: &ExprValue,
        schema_name: &str,
        schema: &TypeExpr,
        context: &str,
        readback: &str,
        mind: &E,
    ) -> (r: (Result<ExprValue, KernelError>, Ghost<Result<ValueLiteral, LiteralFault>>))
        requires
            self.fixed().schemas[schema_name@] == *schema,
        ensures
            normal_asked::<E>(*mind, self.fixed(), value@, schema_name@, r.1@),
            match (r.0, normal_value(value@, r.1@, context@, readback@)) {
                (Ok(v), Ok(t)) => v@ == t,
                (Err(e), Err(t)) => is_manifest_error(e, t),
                _ => false,
            },
    {
        let ghost none = Ok(ValueLiteral::Null);
        if !hash_keys_known(value) {
            return (
                Err(KernelError::Manifest(join2(context, " literal error: invalid hash key"))),
                Ghost(none),
            );
        }
        let literal = match expr_value_to_literal(value) {
            Ok(l) => l,
            Err(e) => {
                return (
                    Err(KernelError::Manifest(join3(context, " literal error: ", e.as_str()))),
                    Ghost(none),
                );
            },
        };
        let ghost shown = literal;
        let schemas = &self.schema_index;
        let answer = mind.normalize_literal(literal, schema, schema_name, schemas);
        let ghost told = answer;
        assert(shown@ == value_to_lit(value@)->Ok_0);
        assert(normal_asked::<E>(*mind, self.fixed(), value@, schema_name@, told));
        let normal = match answer {
            Ok(l) => l,
            Err(LiteralFault::Canonicalization(e)) => {
                return (
                    Err(
                        KernelError::Manifest(
                            join3(context, " canonicalization error: ", e.as_str()),
                        ),
                    ),
                    Ghost(told),
                );
            },
            Err(LiteralFault::Validation(e)) => {
                return (
                    Err(KernelError::Manifest(join3(context, " validation error: ", e.as_str()))),
                    Ghost(told),
                );
            },
        };
        match literal_to_value(&normal) {
            Ok(v) => (Ok(v), Ghost(told)),
            Err(e) => (
                Err(KernelError::Manifest(join3(context, readback, e.as_str()))),
                Ghost(told),
            ),
        }
    }

    fn handle_raise_event_step<E: PlanEvaluator>(
        &mut self,
        step_id: &str,
        event: &String,
        value: &ExprOrValue,
        mind: &E,
        out: &mut PlanTickOutcome,
    ) -> (r: (Result<StepTickControl, KernelError>, Ghost<StepAnswers>))
        requires
            old(self).wf(),
            report_agrees(old(out), old(self)@),
            old(out).waiting_event is None,
        ensures
            step_kept(old(self), final(self), final(out), step_id@),
            r.0 is Ok && r.0->Ok_0 != StepTickControl::Return ==> final(out).waiting_event is None,
            r.0 matches Ok(c) ==> c != StepTickControl::Continue && final(self)@.states[step_id@]
                == StepState::Completed,
            fits(old(self).fixed(), r.1@),
            raise_asked::<E>(*mind, old(self).fixed(), old(self)@, step_id@, event@, *value, r.1@),
            ran_is(
                raise_ran(
                    old(self).fixed(),
                    old(self)@,
                    old(out)@,
                    step_id@,
                    event@,
                    *value,
                    r.1@,
                ),
                final(self)@,
                final(out)@,
                r.0,
            ),
            final(out).intents_enqueued@ == old(out).intents_enqueued@,
    {
        let ghost answers = unasked(self.fixed());
        let schema = match self.schema_index.get(event.as_str()) {
            Some(t) => t,
            None => {
                return (
                    Err(
                        KernelError::Manifest(
                            join3("event schema '", event.as_str(), "' not found for raise_event"),
                        ),
                    ),
                    Ghost(answers),
                );
            },
        };
        let (raw, answer) = self.value_of(value, "plan raise_event eval error", mind);
        let ghost answers = StepAnswers { value: answer@, ..answers };
        let raw = match raw {
            Ok(v) => v,
            Err(e) => {
                return (Err(e), Ghost(answers));
            },
        };
        let (normal, answer) = self.normalized(
            &raw,
            event.as_str(),
            schema,
            "plan raise_event",
            " value encode error: ",
            mind,
        );
        let ghost answers = StepAnswers { normal: answer@, ..answers };
        let normal = match normal {
            Ok(v) => v,
            Err(e) => {
                return (Err(e), Ghost(answers));
            },
        };
        let payload = match encode_value(&normal) {
            Ok(b) => b,
            Err(e) => {
                return (
                    Err(
                        KernelError::Manifest(
                            join2("plan raise_event encode error: ", e.as_str()),
                        ),
                    ),
                    Ghost(answers),
                );
            },
        };
        let ghost bytes = payload@;
        out.raised_events.push(DomainEvent::new(event.clone(), payload));
        assert(out@ =~= (Report {
            raised: old(out)@.raised.push((event@, bytes, None)),
            ..old(out)@
        }));
        self.apply_raise(step_id, event, normal);
        let (control, values) = self.after_step(mind, out);
        (control, Ghost(StepAnswers { invariants: values@, ..answers }))
    }

    /// The result of an end step, which the report carries.
    fn end_value<E: PlanEvaluator>(
        &self,
        result: &Option<ExprOrValue>,
        mind: &E,
        out: &mut PlanTickOutcome,
    ) -> (r: (Result<ExprValue, KernelError>, Ghost<StepAnswers>))
        ensures
            fits(self.fixed(), r.1@),
            end_value_asked::<E>(*mind, self.fixed(), self@, *result, r.1@),
            match (r.0, end_result(self.fixed(), old(out)@, *result, r.1@)) {
                (Ok(v), Ok(t)) => v@ == t.0 && final(out)@ == t.1,
                (Err(e), Err(t)) => is_manifest_error(e, t) && final(out)@ == old(out)@,
                _ => false,
            },
            final(out).waiting_receipts == old(out).waiting_receipts,
            final(out).waiting_event == old(out).waiting_event,
            final(out).completed == old(out).completed,
            final(out).plan_error == old(out).plan_error,
            final(out).intents_enqueued@ == old(out).intents_enqueued@,
    {
        let ghost answers = unasked(self.fixed());
        match check_end(&self.plan.output, result) {
            Ok(_) => {},
            Err(e) => {
                return (Err(e), Ghost(answers));
            },
        }
        let what = match result {
            None => {
                return (Ok(ExprValue::Unit), Ghost(answers));
            },
            Some(w) => w,
        };
        let (raw, answer) = self.value_of(what, "plan end result eval error", mind);
        let ghost answers = StepAnswers { value: answer@, ..answers };
        let raw = match raw {
            Ok(v) => v,
            Err(e) => {
                return (Err(e), Ghost(answers));
            },
        };
        let name = match &self.plan.output {
            None => {
                out.result = Some(raw.copied());
                assert(out@ =~= (Report { result: Some(raw@), ..old(out)@ }));
                return (Ok(raw), Ghost(answers));
            },
            Some(n) => n,
        };
        let schema = match self.schema_index.get(name.as_str()) {
            Some(t) => t,
            None => {
                let head = join3("output schema '", name.as_str(), "' not found for plan '");
                return (
                    Err(
                        KernelError::Manifest(join3(head.as_str(), self.plan.name.as_str(), "'")),
                    ),
                    Ghost(answers),
                );
            },
        };
        let (normal, answer) = self.normalized(
            &raw,
            name.as_str(),
            schema,
            "plan end result",
            " decode error: ",
            mind,
        );
        let ghost answers = StepAnswers { normal: answer@, ..answers };
        let normal = match normal {
            Ok(v) => v,
            Err(e) => {
                return (Err(e), Ghost(answers));
            },
        };
        let encoded = mind.encode_value(&normal);
        assert(encode_asked::<E>(*mind, normal@, encoded));
        let ghost answers = StepAnswers { encoded, ..answers };
        let payload = match encoded {
            Ok(b) => b,
            Err(e) => {
                return (
                    Err(
                        KernelError::Manifest(join2("plan end result encode error: ", e.as_str())),
                    ),
                    Ghost(answers),
                );
            },
        };
        let ghost bytes = payload@;
        out.result_schema = Some(name.clone());
        out.result_cbor = Some(payload);
        out.result = Some(normal.copied());
        assert(out@ =~= (Report {
            result: Some(normal@),
            result_schema: Some(name@),
            result_cbor: Some(bytes),
            ..old(out)@
        }));
        (Ok(normal), Ghost(answers))
    }

    fn handle_end_step<E: PlanEvaluator>(
        &mut self,
        step_id: &str,
        result: &Option<ExprOrValue>,
        mind: &E,
        out: &mut PlanTickOutcome,
    ) -> (r: (Result<StepTickControl, KernelError>, Ghost<StepAnswers>))
        requires
            old(self).wf(),
            report_agrees(old(out), old(self)@),
            old(out).waiting_event is None,
        ensures
            step_kept(old(self), final(self), final(out), step_id@),
            r.0 is Ok && r.0->Ok_0 != StepTickControl::Return ==> final(out).waiting_event is None,
            r.0 matches Ok(c) ==> c == StepTickControl::Return && final(out).completed,
            fits(old(self).fixed(), r.1@),
            end_asked::<E>(
                *mind,
                old(self).fixed(),
                old(self)@,
                old(out)@,
                step_id@,
                *result,
                r.1@,
            ),
            ran_is(
                end_ran(old(self).fixed(), old(self)@, old(out)@, step_id@, *result, r.1@),
                final(self)@,
                final(out)@,
                r.0,
            ),
            final(out).intents_enqueued@ == old(out).intents_enqueued@,
    {
        let (value, told) = self.end_value(result, mind, out);
        let value = match value {
            Ok(v) => v,
            Err(e) => {
                return (Err(e), told);
            },
        };
        let ghost reported = out@;
        self.apply_end(step_id, value);
        out.completed = true;
        assert(out@ =~= (Report { completed: true, ..reported }));
        let (judged, values) = self.enforce_invariants(mind);
        let ghost answers = StepAnswers { invariants: values@, ..told@ };
        match judged {
            Err(e) => (Err(e), Ghost(answers)),
            Ok(None) => (Ok(StepTickControl::Return), Ghost(answers)),
            Ok(Some(err)) => {
                out.plan_error = Some(err);
                assert(out@ =~= (Report {
                    completed: true,
                    error: Some("invariant_violation"@),
                    ..reported
                }));
                (Ok(StepTickControl::Return), Ghost(answers))
            },
        }
    }
}

impl PlanInstance {
    /// Runs the step at `k`, unless it emits an effect.
    fn process_ready_step<E: PlanEvaluator>(
        &mut self,
        k: usize,
        mind: &E,
        out: &mut PlanTickOutcome,
        waiting_registered: &mut bool,
    ) -> (r: (Result<StepTickControl, KernelError>, Ghost<StepAnswers>))
        requires
            old(self).wf(),
            report_agrees(old(out), old(self)@),
            old(out).waiting_event is None,
            k < old(self).plan.steps@.len(),
        ensures
            step_kept(old(self), final(self), final(out), old(self).plan.steps@[k as int].id@),
            r.0 is Ok && r.0->Ok_0 != StepTickControl::Return ==> final(out).waiting_event is None,
            r.0 matches Ok(c) ==> {
                let id = old(self).plan.steps@[k as int].id@;
                &&& c == StepTickControl::RestartTick ==> final(self)@.states[id]
                    == StepState::Completed
                &&& c == StepTickControl::Continue ==> final(self)@.states == old(self)@.states
                    || final(self)@.states[id] == StepState::WaitingReceipt
            },
            *final(waiting_registered) == (*old(waiting_registered) || (old(self).plan.steps@[k as int].kind is AwaitReceipt && r.0 == Ok::<_, KernelError>(
                StepTickControl::Continue,
            ))),
            fits(old(self).fixed(), r.1@),
            step_asked::<E>(
                *mind,
                old(self).fixed(),
                old(self)@,
                old(out)@,
                old(self).plan.steps@[k as int],
                r.1@,
            ),
            ran_is(
                step_ran(
                    old(self).fixed(),
                    old(self)@,
                    old(out)@,
                    old(self).plan.steps@[k as int],
                    r.1@,
                ),
                final(self)@,
                final(out)@,
                r.0,
            ),
            final(out).intents_enqueued@ == old(out).intents_enqueued@,
    {
        let id = self.plan.steps[k].id.clone();
        match &self.plan.steps[k].kind {
            PlanStepKind::Assign { expr, var } => {
                let expr = expr.copied();
                let var = var.clone();
                self.handle_assign_step(id.as_str(), &expr, &var, mind, out)
            },
            PlanStepKind::EmitEffect { .. } => {
                let ghost answers = unasked(self.fixed());
                (Ok(StepTickControl::Continue), Ghost(answers))
            },
            PlanStepKind::AwaitReceipt { for_expr, var } => {
                let for_expr = for_expr.clone();
                let var = var.clone();
                self.handle_await_receipt_step(
                    id.as_str(),
                    &for_expr,
                    &var,
                    mind,
                    out,
                    waiting_registered,
                )
            },
            PlanStepKind::AwaitEvent { event, where_clause, var } => {
                let event = event.clone();
                let clause = match where_clause {
                    Some(e) => Some(e.clone()),
                    None => None,
                };
                let var = var.clone();
                self.handle_await_event_step(id.as_str(), &event, &clause, &var, mind, out)
            },
            PlanStepKind::RaiseEvent { event, value } => {
                let event = event.clone();
                let value = value.copied();
                self.handle_raise_event_step(id.as_str(), &event, &value, mind, out)
            },
            PlanStepKind::End { result } => {
                let result = match result {
                    Some(w) => Some(w.copied()),
                    None => None,
                };
                self.handle_end_step(id.as_str(), &result, mind, out)
            },
        }
    }

    /// Emits the effect of the step `id`, if it emits one; the second part of the result says
    /// what the host answered.
    fn run_emit<H: PlanHost>(
        &mut self,
        id: &String,
        host: &mut H,
        out: &mut PlanTickOutcome,
        Ghost(earlier): Ghost<Seq<IntentView>>,
    ) -> (r: (Result<StepTickControl, KernelError>, Ghost<StepAnswers>))
        requires
            old(self).wf(),
            report_agrees(old(out), old(self)@),
            old(out).waiting_event is None,
            old(host).handed() == earlier + intents_view(old(out).intents_enqueued@),
        ensures
            step_kept(old(self), final(self), final(out), id@),
            r.0 is Ok && r.0->Ok_0 != StepTickControl::Return ==> final(out).waiting_event is None,
            r.0 == Ok::<_, KernelError>(StepTickControl::RestartTick) ==> final(self)@.states[id@]
                == StepState::Completed,
            r.0 == Ok::<_, KernelError>(StepTickControl::Continue) ==> final(self)@ == old(self)@,
            fits(old(self).fixed(), r.1@),
            ({
                let steps = old(self).plan.steps@;
                if emits_effect(steps, id@) {
                    &&& r.0 != Ok::<_, KernelError>(StepTickControl::Continue)
                    &&& emitting_asked::<H>(
                        old(host).mind(),
                        old(self).fixed(),
                        old(self)@,
                        steps[step_index(steps, id@, steps.len())],
                        r.1@,
                    )
                    &&& ran_is(
                        emitting_ran(
                            old(self).fixed(),
                            old(self)@,
                            old(out)@,
                            steps[step_index(steps, id@, steps.len())],
                            r.1@,
                        ),
                        final(self)@,
                        final(out)@,
                        r.0,
                    )
                } else {
                    &&& r.0 == Ok::<_, KernelError>(StepTickControl::Continue)
                    &&& final(out)@ == old(out)@
                }
            }),
            final(host).handed() == earlier + intents_view(final(out).intents_enqueued@),
            final(host).mind() == old(host).mind(),
    {
        let ghost answers = unasked(self.fixed());
        let k: usize = match self.find_step(id.as_str()) {
            Some(k) => k,
            None => {
                return (Ok(StepTickControl::Continue), Ghost(answers));
            },
        };
        match &self.plan.steps[k].kind {
            PlanStepKind::EmitEffect { kind, params, cap, effect_id_as, idempotency_key } => {
                let kind = kind.clone();
                let params = params.copied();
                let cap = cap.clone();
                let effect_id_as = effect_id_as.clone();
                let key = match idempotency_key {
                    Some(w) => Some(w.copied()),
                    None => None,
                };
                self.handle_emit_effect_step(
                    id.as_str(),
                    &kind,
                    &params,
                    &cap,
                    &effect_id_as,
                    &key,
                    host,
                    out,
                    Ghost(earlier),
                )
            },
            _ => (Ok(StepTickControl::Continue), Ghost(answers)),
        }
    }

    /// Emits the effects of the ready steps that emit one. One such step is enough to look at the
    /// plan afresh.
    fn run_emit_ready_steps<H: PlanHost>(
        &mut self,
        ready: &Vec<String>,
        host: &mut H,
        out: &mut PlanTickOutcome,
        Ghost(earlier): Ghost<Seq<IntentView>>,
    ) -> (r: (Result<StepTickControl, KernelError>, Ghost<Seq<StepAnswers>>))
        requires
            old(self).wf(),
            report_agrees(old(out), old(self)@),
            old(out).waiting_event is None,
            forall|i: int|
                0 <= i < ready@.len() ==> old(self)@.states.contains_key((#[trigger] ready@[i])@)
                    && old(self)@.states[ready@[i]@] == StepState::Pending,
            old(host).handed() == earlier + intents_view(old(out).intents_enqueued@),
        ensures
            final(self).same_fixed(old(self)),
            final(self).wf(),
            progress(old(self)@.states, final(self)@.states),
            report_agrees(final(out), final(self)@),
            r.0 is Ok && r.0->Ok_0 != StepTickControl::Return ==> final(out).waiting_event is None,
            r.0 == Ok::<_, KernelError>(StepTickControl::Continue) ==> final(self)@ == old(self)@,
            r.0 == Ok::<_, KernelError>(StepTickControl::RestartTick) ==> exists|i: int|
                0 <= i < ready@.len() && final(self)@.states[(#[trigger] ready@[i])@]
                    != StepState::Pending,
            r.1@.len() == ready@.len(),
            forall|i: int| 0 <= i < r.1@.len() ==> fits(old(self).fixed(), #[trigger] r.1@[i]),
            emits_asked::<H>(
                old(host).mind(),
                old(self).fixed(),
                old(self)@,
                old(out)@,
                ids_view(ready@),
                r.1@,
            ),
            ran_is(
                emit_pass(
                    old(self).fixed(),
                    old(self)@,
                    old(out)@,
                    ids_view(ready@),
                    r.1@,
                    ready@.len(),
                ),
                final(self)@,
                final(out)@,
                r.0,
            ),
            final(host).handed() == earlier + intents_view(final(out).intents_enqueued@),
            final(host).mind() == old(host).mind(),
    {
        let ghost mind = host.mind();
        let ghost f = self.fixed();
        let ghost s = self@;
        let ghost o = out@;
        let ghost ids = ids_view(ready@);
        let ghost mut answers = Seq::new(ready@.len(), |i: int| unasked(f));
        let mut ran: bool = false;
        let mut i: usize = 0;
        while i < ready.len()
            invariant
                i <= ready@.len(),
                host.mind() == mind,
                mind == old(host).mind(),
                host.handed() == earlier + intents_view(out.intents_enqueued@),
                self.wf(),
                self.same_fixed(old(self)),
                report_agrees(out, self@),
                out.waiting_event is None,
                progress(old(self)@.states, self@.states),
                forall|j: int|
                    0 <= j < ready@.len() ==> old(self)@.states.contains_key(
                        (#[trigger] ready@[j])@,
                    ) && old(self)@.states[ready@[j]@] == StepState::Pending,
                !ran ==> self@ == old(self)@,
                ran ==> exists|j: int|
                    0 <= j < ready@.len() && self@.states[(#[trigger] ready@[j])@]
                        != StepState::Pending,
                f == old(self).fixed(),
                s == old(self)@,
                o == old(out)@,
                ids == ids_view(ready@),
                answers.len() == ready@.len(),
                forall|j: int| 0 <= j < answers.len() ==> fits(f, #[trigger] answers[j]),
                forall|j: int|
                    0 <= j < i ==> emit_asked_at::<H>(
                        mind,
                        f,
                        emit_pass(f, s, o, ids, answers, j as nat),
                        ids[j],
                        #[trigger] answers[j],
                    ),
                emit_pass(f, s, o, ids, answers, i as nat) == (Ran {
                    state: self@,
                    report: out@,
                    flow: Flow::Control(
                        if ran {
                            StepTickControl::RestartTick
                        } else {
                            StepTickControl::Continue
                        },
                    ),
                }),
            decreases ready@.len() - i,
        {
            let ghost before = self@.states;
            let ghost known = answers;
            let (control, told) = self.run_emit(&ready[i], host, out, Ghost(earlier));
            proof {
                answers = answers.update(i as int, told@);
                assert forall|j: int| 0 <= j < answers.len() implies fits(
                    f,
                    #[trigger] answers[j],
                ) by {
                    assert(j != i ==> answers[j] == known[j]);
                }
                lemma_emit_pass_reads(f, s, o, ids, known, answers, i as nat);
                assert forall|j: int| 0 <= j < i + 1 implies emit_asked_at::<H>(
                    mind,
                    f,
                    emit_pass(f, s, o, ids, answers, j as nat),
                    ids[j],
                    #[trigger] answers[j],
                ) by {
                    lemma_emit_pass_reads(f, s, o, ids, known, answers, j as nat);
                    if j < i {
                        assert(answers[j] == known[j]);
                    }
                }
                assert(ids[i as int] == ready@[i as int]@);
                lemma_touched(old(self)@.states, before, self@.states, ready@[i as int]@);
            }
            match control {
                Err(e) => {
                    proof {
                        lemma_emit_pass_stands(
                            f,
                            s,
                            o,
                            ids,
                            answers,
                            (i + 1) as nat,
                            ready@.len(),
                        );
                        lemma_emits_asked::<H>(mind, f, s, o, ids, answers, (i + 1) as nat);
                    }
                    return (Err(e), Ghost(answers));
                },
                Ok(StepTickControl::Return) => {
                    proof {
                        lemma_emit_pass_stands(
                            f,
                            s,
                            o,
                            ids,
                            answers,
                            (i + 1) as nat,
                            ready@.len(),
                        );
                        lemma_emits_asked::<H>(mind, f, s, o, ids, answers, (i + 1) as nat);
                    }
                    return (Ok(StepTickControl::Return), Ghost(answers));
                },
                Ok(StepTickControl::RestartTick) => {
                    ran = true;
                    assert(self@.states[ready@[i as int]@] != StepState::Pending);
                },
                Ok(StepTickControl::Continue) => {},
            }
            i += 1;
        }
        if ran {
            (Ok(StepTickControl::RestartTick), Ghost(answers))
        } else {
            (Ok(StepTickControl::Continue), Ghost(answers))
        }
    }
}

/// Once a pass has come to its end, what the first steps asked is all that was asked.
proof fn lemma_emits_asked<H: PlanHost>(
    mind: H::Evaluator,
    f: Fixed,
    s: PlanState,
    o: Report,
    ids: Seq<Seq<char>>,
    answers: Seq<StepAnswers>,
    n: nat,
)
    requires
        !goes_on(emit_pass(f, s, o, ids, answers, n).flow),
        forall|j: int|
            0 <= j < n ==> emit_asked_at::<H>(
                mind,
                f,
                emit_pass(f, s, o, ids, answers, j as nat),
                ids[j],
                #[trigger] answers[j],
            ),
    ensures
        emits_asked::<H>(mind, f, s, o, ids, answers),
{
    assert forall|j: int| 0 <= j < ids.len() implies emit_asked_at::<H>(
        mind,
        f,
        emit_pass(f, s, o, ids, answers, j as nat),
        ids[j],
        #[trigger] answers[j],
    ) by {
        if j >= n {
            lemma_emit_pass_stands(f, s, o, ids, answers, n, j as nat);
        }
    }
}

proof fn lemma_steps_asked<E: PlanEvaluator>(
    mind: E,
    f: Fixed,
    s: PlanState,
    o: Report,
    ids: Seq<Seq<char>>,
    answers: Seq<StepAnswers>,
    n: nat,
)
    requires
        step_pass(f, s, o, ids, answers, n).0.flow != Flow::Control(StepTickControl::Continue),
        forall|j: int|
            0 <= j < n ==> step_asked_at::<E>(
                mind,
                f,
                step_pass(f, s, o, ids, answers, j as nat).0,
                ids[j],
                #[trigger] answers[j],
            ),
    ensures
        steps_asked::<E>(mind, f, s, o, ids, answers),
{
    assert forall|j: int| 0 <= j < ids.len() implies step_asked_at::<E>(
        mind,
        f,
        step_pass(f, s, o, ids, answers, j as nat).0,
        ids[j],
        #[trigger] answers[j],
    ) by {
        if j >= n {
            lemma_step_pass_stands(f, s, o, ids, answers, n, j as nat);
        }
    }
}

/// A step that was pending at first may be touched: what has ended stays so.
proof fn lemma_touched(
    first: Map<Seq<char>, StepState>,
    a: Map<Seq<char>, StepState>,
    b: Map<Seq<char>, StepState>,
    id: Seq<char>,
)
    requires
        progress(first, a),
        touched(a, b, id),
        first.contains_key(id) ==> !is_final(first[id]),
    ensures
        progress(first, b),
{
}

/// Progress made in two stretches is progress.
proof fn lemma_progress_joins(
    a: Map<Seq<char>, StepState>,
    b: Map<Seq<char>, StepState>,
    c: Map<Seq<char>, StepState>,
)
    requires
        progress(a, b),
        progress(b, c),
    ensures
        progress(a, c),
{
    assert forall|k: Seq<char>|
        #![trigger c[k]]
        #![trigger c.contains_key(k)]
        a.contains_key(k) implies {
        &&& c.contains_key(k)
        &&& is_final(a[k]) ==> c[k] == a[k]
        &&& c[k] == StepState::Pending ==> a[k] == StepState::Pending
    } by {
        assert(b.contains_key(k));
        assert(c.contains_key(k));
    }
}

/// What `ready_steps` leaves behind: progress, and pending steps of the plan to run.
proof fn lemma_ready(
    s: PlanState,
    steps: Seq<PlanStep>,
    edges: Seq<super::PlanEdge>,
    guards: Seq<Option<Evaluated>>,
)
    requires
        forall|i: int|
            0 <= i < steps.len() ==> s.states.contains_key((#[trigger] steps[i]).id@),
    ensures
        ({
            let after = ready_after_skips(s, steps, edges, guards);
            &&& progress(s.states, after.0.states)
            &&& pending_count(steps, after.0.states, steps.len()) <= pending_count(
                steps,
                s.states,
                steps.len(),
            )
            &&& after.0 == (PlanState {
                states: after.0.states,
                completed: after.0.completed,
                ..s
            })
            &&& s.completed ==> after.0.completed
            &&& after.1 matches Ok(ids) ==> forall|i: int|
                0 <= i < ids.len() ==> after.0.states.contains_key(#[trigger] ids[i])
                    && after.0.states[ids[i]] == StepState::Pending && exists|k: int|
                    0 <= k < steps.len() && (#[trigger] steps[k]).id@ == ids[i]
        }),
    decreases pending_count(steps, s.states, steps.len()),
{
    match scan_steps(steps, edges, guards, s.states, steps.len()) {
        Err(_) => {},
        Ok((ready, skip)) => {
            lemma_scan_skip(steps, edges, guards, s.states, steps.len());
            if ready.len() > 0 || skip.len() == 0 {
                assert forall|i: int| 0 <= i < ready.len() implies s.states.contains_key(
                    #[trigger] ready[i],
                ) && s.states[ready[i]] == StepState::Pending && exists|k: int|
                    0 <= k < steps.len() && (#[trigger] steps[k]).id@ == ready[i] by {
                    let k = choose|k: int|
                        0 <= k < steps.len() && (#[trigger] steps[k]).id@ == ready[i];
                    assert(s.states.contains_key(steps[k].id@));
                }
            } else {
                let t = skipped(s, skip);
                lemma_skipped_states(s, skip);
                assert(skip.contains(skip[0]));
                lemma_pending_drops(steps, s.states, t.states, skip[0]);
                lemma_skipped_completed(s, skip);
                assert forall|k: Seq<char>| s.states.contains_key(k) && skip.contains(
                    k,
                ) implies #[trigger] s.states[k] == StepState::Pending by {
                    let i = choose|i: int| 0 <= i < skip.len() && skip[i] == k;
                    assert(s.states[skip[i]] == StepState::Pending);
                }
                assert(progress(s.states, t.states));
                lemma_ready(t, steps, edges, guards);
                let after = ready_after_skips(t, steps, edges, guards);
                lemma_progress_joins(s.states, t.states, after.0.states);
            }
        },
    }
}

proof fn lemma_skipped_completed(s: PlanState, ids: Seq<Seq<char>>)
    ensures
        s.completed ==> skipped(s, ids).completed,
    decreases ids.len(),
{
    if ids.len() > 0 {
        lemma_skipped_completed(s, ids.drop_last());
    }
}

impl PlanInstance {
    /// Adds the intents whose receipts are waited for to a report.
    fn report_waits(&self, out: &mut PlanTickOutcome)
        requires
            report_agrees(old(out), self@),
        ensures
            report_agrees(final(out), self@),
            final(out)@ == with_waits(self@, old(out)@),
            final(out).waiting_event == old(out).waiting_event,
            final(out).intents_enqueued@ == old(out).intents_enqueued@,
    {
        let ghost start = out@;
        let ghost all = awaited_hashes(self@);
        let mut i: usize = 0;
        assert(start.waiting + all.take(0) =~= start.waiting);
        while i < self.receipt_waits.len()
            invariant
                i <= self.receipt_waits@.len(),
                all == awaited_hashes(self@),
                out.waiting_event == old(out).waiting_event,
                out@ == (Report { waiting: start.waiting + all.take(i as int), ..start }),
                report_agrees(out, self@),
            decreases self.receipt_waits@.len() - i,
        {
            let ghost before = out@;
            proof {
                lemma_wait_index(self@.waits, self@.waits[i as int].0);
                assert(self@.waits[i as int].0 == self.receipt_waits@[i as int].intent_hash@);
                assert(all[i as int] == self@.waits[i as int].0);
                assert(all.take(i + 1) =~= all.take(i as int).push(all[i as int]));
            }
            out.waiting_receipts.push(self.receipt_waits[i].intent_hash);
            assert(out@.waiting =~= before.waiting.push(all[i as int]));
            assert(out@ =~= (Report {
                waiting: start.waiting + all.take(i + 1),
                ..start
            }));
            i += 1;
        }
        assert(all.take(all.len() as int) =~= all);
    }

    /// What a tick comes to in which no step can run.
    fn come_to_rest<E: PlanEvaluator>(&mut self, mind: &E, out: &mut PlanTickOutcome) -> (r: (
        Result<StepTickControl, KernelError>,
        Ghost<Seq<Evaluated>>,
    ))
        requires
            old(self).wf(),
            report_agrees(old(out), old(self)@),
        ensures
            final(self).same_fixed(old(self)),
            final(self).wf(),
            final(self)@.states == old(self)@.states,
            report_agrees(final(out), final(self)@),
            r.1@.len() == old(self).plan.invariants@.len(),
            rest_asked::<E>(*mind, old(self).fixed(), old(self)@, r.1@),
            r.0 matches Ok(c) ==> c == StepTickControl::Return,
            ran_is(rest(old(self)@, old(out)@, r.1@), final(self)@, final(out)@, r.0),
            final(out).intents_enqueued@ == old(out).intents_enqueued@,
    {
        let ghost none = unasked(self.fixed()).invariants;
        if self.receipt_waits.len() > 0 {
            self.report_waits(out);
            return (Ok(StepTickControl::Return), Ghost(none));
        }
        if let Some(wait) = &self.event_wait {
            out.waiting_event = Some(wait.schema.clone());
            assert(out@ =~= (Report { event: Some(self@.event_wait->0.schema), ..old(out)@ }));
            return (Ok(StepTickControl::Return), Ghost(none));
        }
        if !self.all_steps_completed() {
            return (Ok(StepTickControl::Return), Ghost(none));
        }
        self.completed = true;
        assert(self@ =~= (PlanState { completed: true, ..old(self)@ }));
        out.completed = true;
        assert(out@ =~= (Report { completed: true, ..old(out)@ }));
        let (judged, values) = self.enforce_invariants(mind);
        match judged {
            Err(e) => (Err(e), values),
            Ok(None) => (Ok(StepTickControl::Return), values),
            Ok(Some(err)) => {
                out.plan_error = Some(err);
                assert(out@ =~= (Report {
                    completed: true,
                    error: Some("invariant_violation"@),
                    ..old(out)@
                }));
                (Ok(StepTickControl::Return), values)
            },
        }
    }

    /// What a tick comes to in which no step that ran was done.
    fn come_to_hold<E: PlanEvaluator>(
        &mut self,
        registered: bool,
        mind: &E,
        out: &mut PlanTickOutcome,
    ) -> (r: (Result<StepTickControl, KernelError>, Ghost<Seq<Evaluated>>))
        requires
            old(self).wf(),
            report_agrees(old(out), old(self)@),
        ensures
            final(self).same_fixed(old(self)),
            final(self).wf(),
            final(self)@.states == old(self)@.states,
            report_agrees(final(out), final(self)@),
            r.1@.len() == old(self).plan.invariants@.len(),
            held_asked::<E>(*mind, old(self).fixed(), old(self)@, registered, r.1@),
            r.0 matches Ok(c) ==> c == StepTickControl::Return,
            ran_is(held(old(self)@, old(out)@, registered, r.1@), final(self)@, final(out)@, r.0),
            final(out).intents_enqueued@ == old(out).intents_enqueued@,
    {
        let ghost none = unasked(self.fixed()).invariants;
        if registered {
            return (Ok(StepTickControl::Return), Ghost(none));
        }
        if self.receipt_waits.len() > 0 {
            self.report_waits(out);
            return (Ok(StepTickControl::Return), Ghost(none));
        }
        if !self.all_steps_completed() {
            return (Ok(StepTickControl::Return), Ghost(none));
        }
        self.completed = true;
        assert(self@ =~= (PlanState { completed: true, ..old(self)@ }));
        out.completed = true;
        assert(out@ =~= (Report { completed: true, ..old(out)@ }));
        let (judged, values) = self.enforce_invariants(mind);
        match judged {
            Err(e) => (Err(e), values),
            Ok(_) => (Ok(StepTickControl::Return), values),
        }
    }

    /// Runs the ready steps until one is done or ends the tick. The second part of the result says
    /// whether one has begun to wait for a receipt.
    fn run_ready_steps<E: PlanEvaluator>(
        &mut self,
        ready: &Vec<String>,
        mind: &E,
        out: &mut PlanTickOutcome,
    ) -> (r: (Result<StepTickControl, KernelError>, bool, Ghost<Seq<StepAnswers>>))
        requires
            old(self).wf(),
            report_agrees(old(out), old(self)@),
            old(out).waiting_event is None,
            forall|i: int|
                0 <= i < ready@.len() ==> old(self)@.states.contains_key((#[trigger] ready@[i])@)
                    && old(self)@.states[ready@[i]@] == StepState::Pending,
        ensures
            final(self).same_fixed(old(self)),
            final(self).wf(),
            progress(old(self)@.states, final(self)@.states),
            report_agrees(final(out), final(self)@),
            r.0 is Ok && r.0->Ok_0 != StepTickControl::Return ==> final(out).waiting_event is None,
            r.0 == Ok::<_, KernelError>(StepTickControl::RestartTick) ==> exists|i: int|
                0 <= i < ready@.len() && final(self)@.states[(#[trigger] ready@[i])@]
                    != StepState::Pending,
            r.2@.len() == ready@.len(),
            forall|i: int| 0 <= i < r.2@.len() ==> fits(old(self).fixed(), #[trigger] r.2@[i]),
            steps_asked::<E>(
                *mind,
                old(self).fixed(),
                old(self)@,
                old(out)@,
                ids_view(ready@),
                r.2@,
            ),
            ({
                let ran = step_pass(
                    old(self).fixed(),
                    old(self)@,
                    old(out)@,
                    ids_view(ready@),
                    r.2@,
                    ready@.len(),
                );
                &&& ran_is(ran.0, final(self)@, final(out)@, r.0)
                &&& r.0 == Ok::<_, KernelError>(StepTickControl::Continue) ==> ran.1 == r.1
            }),
            final(out).intents_enqueued@ == old(out).intents_enqueued@,
    {
        let ghost f = self.fixed();
        let ghost s = self@;
        let ghost o = out@;
        let ghost ids = ids_view(ready@);
        let ghost mut answers = Seq::new(ready@.len(), |i: int| unasked(f));
        let mut registered: bool = false;
        let mut i: usize = 0;
        while i < ready.len()
            invariant
                i <= ready@.len(),
                out.intents_enqueued@ == old(out).intents_enqueued@,
                self.wf(),
                self.same_fixed(old(self)),
                report_agrees(out, self@),
                out.waiting_event is None,
                progress(old(self)@.states, self@.states),
                forall|j: int|
                    0 <= j < ready@.len() ==> old(self)@.states.contains_key(
                        (#[trigger] ready@[j])@,
                    ) && old(self)@.states[ready@[j]@] == StepState::Pending,
                f == old(self).fixed(),
                s == old(self)@,
                o == old(out)@,
                ids == ids_view(ready@),
                answers.len() == ready@.len(),
                forall|j: int| 0 <= j < answers.len() ==> fits(f, #[trigger] answers[j]),
                forall|j: int|
                    0 <= j < i ==> step_asked_at::<E>(
                        *mind,
                        f,
                        step_pass(f, s, o, ids, answers, j as nat).0,
                        ids[j],
                        #[trigger] answers[j],
                    ),
                step_pass(f, s, o, ids, answers, i as nat) == (
                    Ran {
                        state: self@,
                        report: out@,
                        flow: Flow::Control(StepTickControl::Continue),
                    },
                    registered,
                ),
            decreases ready@.len() - i,
        {
            let ghost before = self@.states;
            let ghost known = answers;
            assert(ids[i as int] == ready@[i as int]@);
            if let Some(k) = self.find_step(ready[i].as_str()) {
                let (control, told) = self.process_ready_step(k, mind, out, &mut registered);
                proof {
                    answers = answers.update(i as int, told@);
                    assert forall|j: int| 0 <= j < answers.len() implies fits(
                        f,
                        #[trigger] answers[j],
                    ) by {
                        assert(j != i ==> answers[j] == known[j]);
                    }
                    lemma_step_pass_reads(f, s, o, ids, known, answers, i as nat);
                    assert forall|j: int| 0 <= j < i + 1 implies step_asked_at::<E>(
                        *mind,
                        f,
                        step_pass(f, s, o, ids, answers, j as nat).0,
                        ids[j],
                        #[trigger] answers[j],
                    ) by {
                        lemma_step_pass_reads(f, s, o, ids, known, answers, j as nat);
                        if j < i {
                            assert(answers[j] == known[j]);
                        }
                    }
                    lemma_touched(old(self)@.states, before, self@.states, ready@[i as int]@);
                }
                match control {
                    Ok(StepTickControl::Continue) => {},
                    stop => {
                        proof {
                            lemma_step_pass_stands(
                                f,
                                s,
                                o,
                                ids,
                                answers,
                                (i + 1) as nat,
                                ready@.len(),
                            );
                            lemma_steps_asked::<E>(*mind, f, s, o, ids, answers, (i + 1) as nat);
                        }
                        assert(stop == Ok::<_, KernelError>(StepTickControl::RestartTick)
                            ==> self@.states[ready@[i as int]@] != StepState::Pending);
                        return (stop, registered, Ghost(answers));
                    },
                }
            }
            i += 1;
        }
        (Ok(StepTickControl::Continue), registered, Ghost(answers))
    }

    /// Looks at the plan once: skips spread, effects are emitted, and steps run.
    fn look<H: PlanHost>(&mut self, host: &mut H, out: &mut PlanTickOutcome, Ghost(
        earlier,
    ): Ghost<Seq<IntentView>>) -> (r: (
        Result<StepTickControl, KernelError>,
        Ghost<RoundAnswers>,
    ))
        requires
            old(self).wf(),
            report_agrees(old(out), old(self)@),
            old(out).waiting_event is None,
            old(host).handed() == earlier + intents_view(old(out).intents_enqueued@),
        ensures
            final(self).same_fixed(old(self)),
            final(self).wf(),
            progress(old(self)@.states, final(self)@.states),
            report_agrees(final(out), final(self)@),
            round_fits(old(self).fixed(), old(self)@, r.1@),
            round_asked::<H>(old(host).mind(), old(self).fixed(), old(self)@, old(out)@, r.1@),
            ran_is(
                round(old(self).fixed(), old(self)@, old(out)@, r.1@),
                final(self)@,
                final(out)@,
                r.0,
            ),
            r.0 matches Ok(c) ==> c != StepTickControl::Continue,
            r.0 == Ok::<_, KernelError>(StepTickControl::RestartTick) ==> final(out).waiting_event is None && pending_count(
                final(self).plan.steps@,
                final(self)@.states,
                final(self).plan.steps@.len(),
            ) < pending_count(
                old(self).plan.steps@,
                old(self)@.states,
                old(self).plan.steps@.len(),
            ),
            final(host).handed() == earlier + intents_view(final(out).intents_enqueued@),
            final(host).mind() == old(host).mind(),
    {
        let ghost f = self.fixed();
        let ghost steps = self.plan.steps@;
        let ghost start = self@;
        let ghost none = unasked(f).invariants;
        let guards = self.eval_guards(host.evaluator());
        proof {
            lemma_ready(self@, steps, self.plan.edges@, guards@);
            assert forall|i: int| 0 <= i < guards@.len() && guard_needed(f, start, i) implies (
            #[trigger] guards@[i]) is Some by {
                assert(self.needs_guard(i));
            }
        }
        let found = self.ready_steps(&guards);
        let ghost base = self@;
        let ready = match found {
            Ok(ids) => ids,
            Err(e) => {
                return (
                    Err(e),
                    Ghost(
                        RoundAnswers {
                            guards: guards@,
                            emits: Seq::empty(),
                            steps: Seq::empty(),
                            invariants: none,
                        },
                    ),
                );
            },
        };
        let ghost ids = ids_view(ready@);
        let ghost empty = Seq::new(ready@.len(), |i: int| unasked(f));
        assert forall|i: int| 0 <= i < ready@.len() implies base.states.contains_key(
            (#[trigger] ready@[i])@,
        ) && base.states[ready@[i]@] == StepState::Pending && exists|k: int|
            0 <= k < steps.len() && (#[trigger] steps[k]).id@ == ready@[i]@ by {
            assert(ids[i] == ready@[i]@);
        }
        if ready.len() == 0 {
            let (control, values) = self.come_to_rest(host.evaluator(), out);
            return (
                control,
                Ghost(
                    RoundAnswers {
                        guards: guards@,
                        emits: empty,
                        steps: empty,
                        invariants: values@,
                    },
                ),
            );
        }
        let (control, emits) = self.run_emit_ready_steps(&ready, host, out, Ghost(earlier));
        let ghost mid = self@;
        proof {
            lemma_progress_joins(start.states, base.states, mid.states);
        }
        match control {
            Ok(StepTickControl::Continue) => {},
            stop => {
                proof {
                    if stop == Ok::<_, KernelError>(StepTickControl::RestartTick) {
                        let i = choose|i: int|
                            0 <= i < ready@.len() && self@.states[(#[trigger] ready@[i])@]
                                != StepState::Pending;
                        lemma_fewer_pending(self, base.states, ready@[i]@);
                    }
                }
                return (
                    stop,
                    Ghost(
                        RoundAnswers {
                            guards: guards@,
                            emits: emits@,
                            steps: empty,
                            invariants: none,
                        },
                    ),
                );
            },
        }
        let (control, registered, ran) = self.run_ready_steps(&ready, host.evaluator(), out);
        proof {
            lemma_progress_joins(start.states, mid.states, self@.states);
        }
        match control {
            Ok(StepTickControl::Continue) => {},
            stop => {
                proof {
                    if stop == Ok::<_, KernelError>(StepTickControl::RestartTick) {
                        let i = choose|i: int|
                            0 <= i < ready@.len() && self@.states[(#[trigger] ready@[i])@]
                                != StepState::Pending;
                        lemma_fewer_pending(self, base.states, ready@[i]@);
                    }
                }
                return (
                    stop,
                    Ghost(
                        RoundAnswers {
                            guards: guards@,
                            emits: emits@,
                            steps: ran@,
                            invariants: none,
                        },
                    ),
                );
            },
        }
        let (control, values) = self.come_to_hold(registered, host.evaluator(), out);
        (
            control,
            Ghost(
                RoundAnswers {
                    guards: guards@,
                    emits: emits@,
                    steps: ran@,
                    invariants: values@,
                },
            ),
        )
    }

    /// Runs the plan until it waits, ends or fails. A run that has completed is left alone.
    /// Another goes as the plan says, for what the host answers. Whatever that is: steps that have
    /// ended stay ended, the report agrees with the run, and what was handed to the kernel is what
    /// the report lists. What else changes in the host by an effect is left to it.
    pub fn tick<H: PlanHost>(&mut self, host: &mut H) -> (r: Result<PlanTickOutcome, KernelError>)
        requires
            old(self).wf(),
        ensures
            final(self).same_fixed(old(self)),
            final(self).wf(),
            old(self)@.completed ==> r is Ok && r->Ok_0.is_idle() && r->Ok_0.completed
                && final(self)@ == old(self)@ && *final(host) == *old(host),
            !old(self)@.completed ==> exists|answers: Seq<RoundAnswers>| #[trigger]
                went::<H>(old(host).mind(), old(self).fixed(), old(self)@, answers, final(self)@, r)
                    && final(host).handed() == old(host).handed() + intents_view(
                    course(
                        old(self).fixed(),
                        old(self)@,
                        idle_report(),
                        answers,
                        answers.len(),
                    ).report.intents,
                ),
            r matches Ok(out) ==> final(host).handed() == old(host).handed() + intents_view(
                out.intents_enqueued@,
            ),
            progress(old(self)@.states, final(self)@.states),
            r matches Ok(out) ==> report_agrees(&out, final(self)@),
            final(host).mind() == old(host).mind(),
    {
        let ghost mind = host.mind();
        let mut out = PlanTickOutcome::new();
        if self.completed {
            assert(host.handed() + intents_view(out.intents_enqueued@) =~= host.handed());
            out.completed = true;
            return Ok(out);
        }
        assert(host.handed() + intents_view(out.intents_enqueued@) =~= host.handed());
        let ghost f = self.fixed();
        let ghost s = self@;
        let ghost mut answers: Seq<RoundAnswers> = Seq::empty();
        loop
            invariant
                self.wf(),
                self.same_fixed(old(self)),
                !old(self)@.completed,
                progress(old(self)@.states, self@.states),
                report_agrees(&out, self@),
                out.waiting_event is None,
                host.mind() == mind,
                mind == old(host).mind(),
                host.handed() == old(host).handed() + intents_view(out.intents_enqueued@),
                f == old(self).fixed(),
                s == old(self)@,
                course(f, s, idle_report(), answers, answers.len()) == (Ran {
                    state: self@,
                    report: out@,
                    flow: Flow::Control(StepTickControl::RestartTick),
                }),
                forall|i: int|
                    #![trigger answers[i]]
                    0 <= i < answers.len() ==> round_due::<H>(
                        mind,
                        f,
                        course(f, s, idle_report(), answers, i as nat),
                        answers[i],
                    ),
            decreases pending_count(self.plan.steps@, self@.states, self.plan.steps@.len()),
        {
            let ghost before = self@;
            let ghost known = answers;
            let (control, told) = self.look(host, &mut out, Ghost(old(host).handed()));
            proof {
                answers = answers.push(told@);
                let n = known.len();
                lemma_course_reads(f, s, idle_report(), known, answers, n);
                assert forall|i: int| #![trigger answers[i]] 0 <= i < answers.len() implies round_due::<H>(
                    mind,
                    f,
                    course(f, s, idle_report(), answers, i as nat),
                    answers[i],
                ) by {
                    lemma_course_reads(f, s, idle_report(), known, answers, i as nat);
                    if i < n {
                        assert(answers[i] == known[i]);
                    }
                }
                lemma_progress_joins(old(self)@.states, before.states, self@.states);
                assert(course(f, s, idle_report(), answers, answers.len()) == round(
                    f,
                    before,
                    course(f, s, idle_report(), known, n).report,
                    told@,
                ));
            }
            match control {
                Ok(StepTickControl::RestartTick) => {},
                Ok(_) => {
                    assert(went::<H>(mind, f, s, answers, self@, Ok(out)));
                    return Ok(out);
                },
                Err(e) => {
                    assert(went::<H>(mind, f, s, answers, self@, Err(e)));
                    return Err(e);
                },
            }
        }
    }
}

/// A pending step that has left that state leaves fewer pending.
proof fn lemma_fewer_pending(p: &PlanInstance, before: Map<Seq<char>, StepState>, id: Seq<char>)
    requires
        p.wf(),
        progress(before, p@.states),
        forall|i: int|
            0 <= i < p.plan.steps@.len() ==> before.contains_key(
                (#[trigger] p.plan.steps@[i]).id@,
            ),
        before.contains_key(id),
        before[id] == StepState::Pending,
        p@.states[id] != StepState::Pending,
        exists|k: int| 0 <= k < p.plan.steps@.len() && (#[trigger] p.plan.steps@[k]).id@ == id,
    ensures
        pending_count(p.plan.steps@, p@.states, p.plan.steps@.len()) < pending_count(
            p.plan.steps@,
            before,
            p.plan.steps@.len(),
        ),
{
    let steps = p.plan.steps@;
    lemma_count_drops(steps, before, p@.states, id);
}

proof fn lemma_count_le(
    steps: Seq<PlanStep>,
    before: Map<Seq<char>, StepState>,
    after: Map<Seq<char>, StepState>,
    n: nat,
)
    requires
        n <= steps.len(),
        progress(before, after),
        forall|i: int|
            0 <= i < steps.len() ==> before.contains_key((#[trigger] steps[i]).id@),
    ensures
        pending_count(steps, after, n) <= pending_count(steps, before, n),
    decreases n,
{
    if n > 0 {
        lemma_count_le(steps, before, after, (n - 1) as nat);
        assert(before.contains_key(steps[n - 1].id@));
    }
}

proof fn lemma_count_drops(
    steps: Seq<PlanStep>,
    before: Map<Seq<char>, StepState>,
    after: Map<Seq<char>, StepState>,
    id: Seq<char>,
)
    requires
        progress(before, after),
        forall|i: int|
            0 <= i < steps.len() ==> before.contains_key((#[trigger] steps[i]).id@),
        before[id] == StepState::Pending,
        after[id] != StepState::Pending,
        exists|k: int| 0 <= k < steps.len() && (#[trigger] steps[k]).id@ == id,
    ensures
        pending_count(steps, after, steps.len()) < pending_count(steps, before, steps.len()),
    decreases steps.len(),
{
    let k = choose|k: int| 0 <= k < steps.len() && (#[trigger] steps[k]).id@ == id;
    lemma_count_drops_at(steps, before, after, k, steps.len());
}

proof fn lemma_count_drops_at(
    steps: Seq<PlanStep>,
    before: Map<Seq<char>, StepState>,
    after: Map<Seq<char>, StepState>,
    k: int,
    n: nat,
)
    requires
        0 <= k < n <= steps.len(),
        progress(before, after),
        forall|i: int|
            0 <= i < steps.len() ==> before.contains_key((#[trigger] steps[i]).id@),
        before[steps[k].id@] == StepState::Pending,
        after[steps[k].id@] != StepState::Pending,
    ensures
        pending_count(steps, after, n) < pending_count(steps, before, n),
    decreases n,
{
    if k == n - 1 {
        lemma_count_le(steps, before, after, (n - 1) as nat);
    } else {
        lemma_count_drops_at(steps, before, after, k, (n - 1) as nat);
        assert(before.contains_key(steps[n - 1].id@));
    }
}

} // verus!
