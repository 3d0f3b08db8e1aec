//! What a tick asks of its host: each answer is one that the host gives to the question that is
//! due.
use vstd::prelude::*;

use crate::capability::CapGrantResolution;
use crate::cbor::cbor_printed;
use crate::cbor_codec::value_to_cbor;
use crate::codec::{hash_keys_valid, value_to_lit};
use crate::effects::EffectIntent;
use crate::error::KernelError;
use crate::literal::{LitTree, ValueLiteral};
use crate::names::deep;
use crate::types::SchemaIndex;
use crate::value::{ExprValue, ValueTree};

use super::course::{emit_key, emit_pass, emits_effect, end_result, given, goes_on, guard_needed,
    normal_value, step_index, step_pass, Fixed, Flow, Ran, Report, RoundAnswers, StepAnswers};
use super::readiness::{ready_after_skips, Evaluated};
use super::steps::{assigned, effect_emitted, end_fault, ended_with, event_awaited, event_record,
    receipt_taken};
use super::tick::{LiteralFault, PlanEvaluator, PlanHost, StepTickControl};
use super::{all_final, completed_with, opt_tree, Expr, ExprEnv, ExprOrValue, PlanState, PlanStep,
    PlanStepKind};

verus! {

/// Whether expressions that are evaluated in an environment refer to a run at `s`.
pub open spec fn env_at(env: ExprEnv, s: PlanState) -> bool {
    &&& env.plan_input@ == s.input
    &&& deep(env.vars.map()) == s.vars
    &&& deep(env.steps.map()) == s.steps
    &&& opt_tree(env.current_event) == s.event
}

/// Whether the evaluator `mind` says so of an expression, in a run at `s`.
pub open spec fn eval_asked<E: PlanEvaluator>(
    mind: E,
    expr: Expr,
    s: PlanState,
    a: Evaluated,
) -> bool {
    exists|env: &ExprEnv|
        env_at(*env, s) && #[trigger] call_ensures(E::eval, (&mind, &expr, env), a)
}

/// Whether the evaluator says so of what stands where a plan wants a value; only of an expression
/// it is asked.
pub open spec fn wanted_asked<E: PlanEvaluator>(
    mind: E,
    what: ExprOrValue,
    s: PlanState,
    a: Evaluated,
) -> bool {
    what matches ExprOrValue::Expr(e) ==> eval_asked::<E>(mind, e, s, a)
}

/// Whether the evaluator `mind` says so of the invariants of the plan, in a run at `s`.
pub open spec fn invariants_asked<E: PlanEvaluator>(
    mind: E,
    f: Fixed,
    s: PlanState,
    values: Seq<Evaluated>,
) -> bool {
    forall|i: int|
        0 <= i < f.plan.invariants@.len() ==> eval_asked::<E>(
            mind,
            f.plan.invariants@[i],
            s,
            #[trigger] values[i],
        )
}

/// Whether the evaluator says so of the literal of a value, under the schema with a name. Only of
/// a value that has a literal it is asked.
pub open spec fn normal_asked<E: PlanEvaluator>(
    mind: E,
    f: Fixed,
    v: ValueTree,
    name: Seq<char>,
    a: Result<ValueLiteral, LiteralFault>,
) -> bool {
    hash_keys_valid(v) && value_to_lit(v) is Ok ==> exists|
        l: ValueLiteral,
        n: &str,
        schemas: &SchemaIndex,
    |
        Ok::<LitTree, Seq<char>>(l@) == value_to_lit(v) && n@ == name && schemas.schemas.map()
            == f.schemas && #[trigger] call_ensures(
            E::normalize_literal,
            (&mind, l, &f.schemas[name], n, schemas),
            a,
        )
}

/// Whether the evaluator `mind` writes a value so.
pub open spec fn encode_asked<E: PlanEvaluator>(
    mind: E,
    v: ValueTree,
    a: Result<Vec<u8>, String>,
) -> bool {
    exists|x: &ExprValue|
        x@ == v && #[trigger] call_ensures(E::encode_value, (&mind, x), a)
}

/// Whether the host says so of an effect that is handed to it.
pub open spec fn effect_asked<H: PlanHost>(
    plan: Seq<char>,
    kind: Seq<char>,
    grant: CapGrantResolution,
    params: Seq<u8>,
    key: Seq<u8>,
    a: Result<EffectIntent, KernelError>,
) -> bool {
    exists|h: &mut H, p: &str, k: &str, b: Vec<u8>, key_bytes: [u8; 32]|
        p@ == plan && k@ == kind && b@ == params && key_bytes@ == key && #[trigger] call_ensures(
            H::enqueue_effect,
            (h, p, k, &grant, b, key_bytes),
            a,
        )
}

pub open spec fn assign_asked<E: PlanEvaluator>(
    mind: E,
    f: Fixed,
    s: PlanState,
    id: Seq<char>,
    expr: ExprOrValue,
    var: Seq<char>,
    a: StepAnswers,
) -> bool {
    &&& wanted_asked::<E>(mind, expr, s, a.value)
    &&& match given(expr, a.value, "plan assign eval error"@) {
        Err(_) => true,
        Ok(v) => invariants_asked::<E>(mind, f, assigned(s, id, var, v), a.invariants),
    }
}

/// The params, the key and the effect of a step that emits one: the effect is handed over under the
/// step's grant, with the encoded params and the key.
pub open spec fn emit_asked<H: PlanHost>(
    mind: H::Evaluator,
    f: Fixed,
    s: PlanState,
    id: Seq<char>,
    kind: Seq<char>,
    params: ExprOrValue,
    handle: Seq<char>,
    key: Option<ExprOrValue>,
    a: StepAnswers,
) -> bool {
    &&& wanted_asked::<H::Evaluator>(mind, params, s, a.value)
    &&& match given(params, a.value, "plan effect eval error"@) {
        Err(_) => true,
        Ok(v) => match cbor_printed(value_to_cbor(v)) {
            Err(_) => true,
            Ok(b) => {
                &&& key is Some ==> wanted_asked::<H::Evaluator>(mind, key->Some_0, s, a.key)
                &&& match emit_key(key, a.key) {
                    Err(_) => true,
                    Ok(k) => f.caps.contains_key(id) ==> {
                        &&& effect_asked::<H>(f.name, kind, f.caps[id], b, k, a.queued)
                        &&& match a.queued {
                            Err(_) => true,
                            Ok(i) => invariants_asked::<H::Evaluator>(
                                mind,
                                f,
                                effect_emitted(s, id, handle, i.intent_hash@, v),
                                a.invariants,
                            ),
                        }
                    },
                }
            },
        },
    }
}

pub open spec fn await_receipt_asked<E: PlanEvaluator>(
    mind: E,
    f: Fixed,
    s: PlanState,
    id: Seq<char>,
    for_expr: Expr,
    var: Seq<char>,
    a: StepAnswers,
) -> bool {
    if s.receipts.contains_key(id) {
        invariants_asked::<E>(mind, f, receipt_taken(s, id, var), a.invariants)
    } else {
        eval_asked::<E>(mind, for_expr, s, a.value)
    }
}

pub open spec fn await_event_asked<E: PlanEvaluator>(
    mind: E,
    f: Fixed,
    s: PlanState,
    id: Seq<char>,
    event: Seq<char>,
    where_clause: Option<Expr>,
    var: Seq<char>,
    a: StepAnswers,
) -> bool {
    !(f.correlated && where_clause is None) && s.event_value is Some ==> invariants_asked::<E>(
        mind,
        f,
        event_awaited(s, id, event, where_clause, var),
        a.invariants,
    )
}

pub open spec fn raise_asked<E: PlanEvaluator>(
    mind: E,
    f: Fixed,
    s: PlanState,
    id: Seq<char>,
    event: Seq<char>,
    value: ExprOrValue,
    a: StepAnswers,
) -> bool {
    f.schemas.contains_key(event) ==> {
        &&& wanted_asked::<E>(mind, value, s, a.value)
        &&& match given(value, a.value, "plan raise_event eval error"@) {
            Err(_) => true,
            Ok(v) => {
                &&& normal_asked::<E>(mind, f, v, event, a.normal)
                &&& match normal_value(
                    v,
                    a.normal,
                    "plan raise_event"@,
                    " value encode error: "@,
                ) {
                    Err(_) => true,
                    Ok(n) => cbor_printed(value_to_cbor(n)) is Ok ==> invariants_asked::<E>(
                        mind,
                        f,
                        completed_with(s, id, event_record(event, n)),
                        a.invariants,
                    ),
                }
            },
        }
    }
}

/// The result of an end step: its value, its normal form under the plan's output schema, and its
/// bytes.
pub open spec fn end_value_asked<E: PlanEvaluator>(
    mind: E,
    f: Fixed,
    s: PlanState,
    result: Option<ExprOrValue>,
    a: StepAnswers,
) -> bool {
    end_fault(f.plan.output, result) is None && result is Some ==> {
        &&& wanted_asked::<E>(mind, result->Some_0, s, a.value)
        &&& match given(result->Some_0, a.value, "plan end result eval error"@) {
            Err(_) => true,
            Ok(v) => match f.plan.output {
                None => true,
                Some(name) => f.schemas.contains_key(name@) ==> {
                    &&& normal_asked::<E>(mind, f, v, name@, a.normal)
                    &&& match normal_value(v, a.normal, "plan end result"@, " decode error: "@) {
                        Err(_) => true,
                        Ok(n) => encode_asked::<E>(mind, n, a.encoded),
                    }
                },
            },
        }
    }
}

pub open spec fn end_asked<E: PlanEvaluator>(
    mind: E,
    f: Fixed,
    s: PlanState,
    o: Report,
    id: Seq<char>,
    result: Option<ExprOrValue>,
    a: StepAnswers,
) -> bool {
    &&& end_value_asked::<E>(mind, f, s, result, a)
    &&& match end_result(f, o, result, a) {
        Err(_) => true,
        Ok((v, _)) => invariants_asked::<E>(mind, f, ended_with(s, id, v), a.invariants),
    }
}

/// What a ready step that runs asks.
pub open spec fn step_asked<E: PlanEvaluator>(
    mind: E,
    f: Fixed,
    s: PlanState,
    o: Report,
    step: PlanStep,
    a: StepAnswers,
) -> bool {
    let id = step.id@;
    match step.kind {
        PlanStepKind::Assign { expr, var } => assign_asked::<E>(mind, f, s, id, expr, var@, a),
        PlanStepKind::EmitEffect { .. } => true,
        PlanStepKind::AwaitReceipt { for_expr, var } => await_receipt_asked::<E>(
            mind,
            f,
            s,
            id,
            for_expr,
            var@,
            a,
        ),
        PlanStepKind::AwaitEvent { event, where_clause, var } => await_event_asked::<E>(
            mind,
            f,
            s,
            id,
            event@,
            where_clause,
            var@,
            a,
        ),
        PlanStepKind::RaiseEvent { event, value } => raise_asked::<E>(
            mind,
            f,
            s,
            id,
            event@,
            value,
            a,
        ),
        PlanStepKind::End { result } => end_asked::<E>(mind, f, s, o, id, result, a),
    }
}

/// What a ready step that emits an effect asks.
pub open spec fn emitting_asked<H: PlanHost>(
    mind: H::Evaluator,
    f: Fixed,
    s: PlanState,
    step: PlanStep,
    a: StepAnswers,
) -> bool {
    match step.kind {
        PlanStepKind::EmitEffect { kind, params, cap, effect_id_as, idempotency_key } => emit_asked::<
            H,
        >(mind, f, s, step.id@, kind@, params, effect_id_as@, idempotency_key, a),
        _ => true,
    }
}

/// What the ready step at `i` asks, where the steps before it have left the tick.
pub open spec fn emit_asked_at<H: PlanHost>(
    mind: H::Evaluator,
    f: Fixed,
    at: Ran,
    id: Seq<char>,
    a: StepAnswers,
) -> bool {
    let steps = f.plan.steps@;
    goes_on(at.flow) && emits_effect(steps, id) ==> emitting_asked::<H>(
        mind,
        f,
        at.state,
        steps[step_index(steps, id, steps.len())],
        a,
    )
}

/// What the ready steps ask that emit effects.
pub open spec fn emits_asked<H: PlanHost>(
    mind: H::Evaluator,
    f: Fixed,
    s: PlanState,
    o: Report,
    ids: Seq<Seq<char>>,
    answers: Seq<StepAnswers>,
) -> bool {
    forall|i: int|
        0 <= i < ids.len() ==> emit_asked_at::<H>(
            mind,
            f,
            emit_pass(f, s, o, ids, answers, i as nat),
            ids[i],
            #[trigger] answers[i],
        )
}

pub open spec fn step_asked_at<E: PlanEvaluator>(
    mind: E,
    f: Fixed,
    at: Ran,
    id: Seq<char>,
    a: StepAnswers,
) -> bool {
    let steps = f.plan.steps@;
    let k = step_index(steps, id, steps.len());
    at.flow == Flow::Control(StepTickControl::Continue) && k >= 0 ==> step_asked::<E>(
        mind,
        f,
        at.state,
        at.report,
        steps[k],
        a,
    )
}

/// What the ready steps ask that run.
pub open spec fn steps_asked<E: PlanEvaluator>(
    mind: E,
    f: Fixed,
    s: PlanState,
    o: Report,
    ids: Seq<Seq<char>>,
    answers: Seq<StepAnswers>,
) -> bool {
    forall|i: int|
        0 <= i < ids.len() ==> step_asked_at::<E>(
            mind,
            f,
            step_pass(f, s, o, ids, answers, i as nat).0,
            ids[i],
            #[trigger] answers[i],
        )
}

/// What is asked in a tick in which no step can run: the invariants of a run that has come to its
/// end.
pub open spec fn rest_asked<E: PlanEvaluator>(
    mind: E,
    f: Fixed,
    s: PlanState,
    values: Seq<Evaluated>,
) -> bool {
    s.waits.len() == 0 && s.event_wait is None && all_final(s.states) ==> invariants_asked::<E>(
        mind,
        f,
        PlanState { completed: true, ..s },
        values,
    )
}

/// What is asked in a tick in which no step that ran was done.
pub open spec fn held_asked<E: PlanEvaluator>(
    mind: E,
    f: Fixed,
    s: PlanState,
    registered: bool,
    values: Seq<Evaluated>,
) -> bool {
    !registered && s.waits.len() == 0 && all_final(s.states) ==> invariants_asked::<E>(
        mind,
        f,
        PlanState { completed: true, ..s },
        values,
    )
}

/// Whether the guards that decide something are what the evaluator says of them.
pub open spec fn guards_asked<E: PlanEvaluator>(
    mind: E,
    f: Fixed,
    s: PlanState,
    guards: Seq<Option<Evaluated>>,
) -> bool {
    forall|i: int|
        0 <= i < guards.len() && guard_needed(f, s, i) ==> (#[trigger] guards[i]) is Some
            && eval_asked::<E>(mind, f.plan.edges@[i].when->Some_0, s, guards[i]->Some_0)
}

/// What is asked while a plan is looked at once.
pub open spec fn round_asked<H: PlanHost>(
    mind: H::Evaluator,
    f: Fixed,
    s: PlanState,
    o: Report,
    a: RoundAnswers,
) -> bool {
    let after = ready_after_skips(s, f.plan.steps@, f.plan.edges@, a.guards);
    &&& guards_asked::<H::Evaluator>(mind, f, s, a.guards)
    &&& match after.1 {
        Err(_) => true,
        Ok(ids) => if ids.len() == 0 {
            rest_asked::<H::Evaluator>(mind, f, after.0, a.invariants)
        } else {
            let first = emit_pass(f, after.0, o, ids, a.emits, ids.len());
            let then_ran = step_pass(f, first.state, first.report, ids, a.steps, ids.len());
            &&& emits_asked::<H>(mind, f, after.0, o, ids, a.emits)
            &&& first.flow == Flow::Control(StepTickControl::Continue) ==> {
                &&& steps_asked::<H::Evaluator>(mind, f, first.state, first.report, ids, a.steps)
                &&& then_ran.0.flow == Flow::Control(StepTickControl::Continue) ==> held_asked::<H::Evaluator>(
                    mind,
                    f,
                    then_ran.0.state,
                    then_ran.1,
                    a.invariants,
                )
            }
        },
    }
}

} // verus!
