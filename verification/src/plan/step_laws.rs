//! What each kind of step leaves behind, and in which order steps run.
use vstd::prelude::*;

use crate::cbor::cbor_printed;
use crate::cbor_codec::value_to_cbor;
use crate::codec::{hash_keys_valid, lit_to_value, value_to_lit};
use crate::value::ValueTree;

use super::asked::{effect_asked, emit_asked};
use super::course::{emit_key, emit_pass, emits_effect, emitting_ran, held, rest, round, step_index,
    step_pass, step_ran, verdict, Fixed, Flow, Ran, Report, RoundAnswers, StepAnswers};
use super::readiness::{ready_after_skips, Evaluated};
use super::snapshot::{event_outcome, initial_state, initial_states};
use super::steps::invariants_violated;
use super::tick::{PlanHost, StepTickControl};
use super::waits::{event_candidate, lemma_wait_index, receipt_delivered, wait_index, wait_insert,
    wait_moved};
use super::{ExprOrValue, PlanInstance, PlanState, PlanStep, StepState};

verus! {

/// Whether `v` is the value that stands where a plan wants one: what the expression evaluates to,
/// or what the literal says.
pub open spec fn stands_for(what: ExprOrValue, told: Evaluated, v: ValueTree) -> bool {
    match what {
        ExprOrValue::Expr(_) => told matches Ok(x) && x@ == v,
        ExprOrValue::Literal(l) => lit_to_value(l@) == Ok::<ValueTree, Seq<char>>(v),
        ExprOrValue::Json => false,
    }
}

/// Whether an invariant came out true.
pub open spec fn is_true(e: Evaluated) -> bool {
    e matches Ok(v) && v@ == ValueTree::Bool(true)
}

/// Whether an invariant came out false.
pub open spec fn is_false(e: Evaluated) -> bool {
    e matches Ok(v) && v@ == ValueTree::Bool(false)
}

/// Whether every invariant holds.
pub open spec fn all_hold(values: Seq<Evaluated>) -> bool {
    forall|i: int| 0 <= i < values.len() ==> is_true(#[trigger] values[i])
}

/// Whether the first invariant that does not hold is false.
pub open spec fn one_is_broken(values: Seq<Evaluated>) -> bool {
    exists|k: int|
        0 <= k < values.len() && is_false(#[trigger] values[k]) && forall|i: int|
            0 <= i < k ==> is_true(#[trigger] values[i])
}

proof fn lemma_verdict_at(values: Seq<Evaluated>, n: nat)
    requires
        n <= values.len(),
    ensures
        (forall|i: int| 0 <= i < n ==> is_true(#[trigger] values[i])) <==> invariants_violated(
            values,
            n,
        ) == Ok::<bool, Seq<char>>(false),
        (exists|k: int|
            0 <= k < n && is_false(#[trigger] values[k]) && forall|i: int|
                0 <= i < k ==> is_true(#[trigger] values[i])) <==> invariants_violated(values, n)
            == Ok::<bool, Seq<char>>(true),
    decreases n,
{
    if n > 0 {
        lemma_verdict_at(values, (n - 1) as nat);
        let x = values[n - 1];
        assert(is_true(x) ==> !is_false(x));
        if invariants_violated(values, n) == Ok::<bool, Seq<char>>(true) {
            if invariants_violated(values, (n - 1) as nat) == Ok::<bool, Seq<char>>(false) {
                assert(is_false(values[n - 1]));
            }
        }
        if exists|k: int|
            0 <= k < n && is_false(#[trigger] values[k]) && forall|i: int|
                0 <= i < k ==> is_true(#[trigger] values[i]) {
            let k = choose|k: int|
                0 <= k < n && is_false(#[trigger] values[k]) && forall|i: int|
                    0 <= i < k ==> is_true(#[trigger] values[i]);
            if k == n - 1 {
                assert(invariants_violated(values, (n - 1) as nat) == Ok::<bool, Seq<char>>(false));
            }
        }
    }
}

/// Invariants are kept if and only if all came out true, and one is violated if and only if the
/// first that did not came out false. Else they cannot be judged.
pub proof fn lemma_invariants_are_judged(values: Seq<Evaluated>)
    ensures
        all_hold(values) <==> verdict(values) == Ok::<bool, Seq<char>>(false),
        one_is_broken(values) <==> verdict(values) == Ok::<bool, Seq<char>>(true),
{
    lemma_verdict_at(values, values.len());
}

/// Whether every step has come to its end.
pub open spec fn is_over(states: Map<Seq<char>, StepState>) -> bool {
    forall|k: Seq<char>| #[trigger]
        states.contains_key(k) ==> states[k] == StepState::Completed || states[k]
            == StepState::Skipped
}

/// Whether a step came to its end with the run at `t` and the report `o`: where the invariants
/// hold the plan is looked at afresh, and where one is broken the run is over and the report says
/// so.
pub open spec fn came_to(ran: Ran, t: PlanState, o: Report, values: Seq<Evaluated>) -> bool {
    &&& all_hold(values) ==> ran.state == t && ran.report == o && ran.flow == Flow::Control(
        StepTickControl::RestartTick,
    )
    &&& one_is_broken(values) ==> ran.state == PlanState { completed: true, ..t } && ran.report
        == Report { completed: true, error: Some("invariant_violation"@), ..o } && ran.flow
        == Flow::Control(StepTickControl::Return)
    &&& !all_hold(values) && !one_is_broken(values) ==> ran.flow is Manifest
}

/// Whether `t` is a run in which `id` has completed with the value `v`, and nothing else has
/// changed but its variables, handles, receipts and events.
pub open spec fn is_done(s: PlanState, t: PlanState, id: Seq<char>, v: ValueTree) -> bool {
    &&& t.states == s.states.insert(id, StepState::Completed)
    &&& t.steps == s.steps.insert(id, v)
    &&& t.completed == (s.completed || is_over(t.states))
    &&& t.input == s.input
    &&& t.event == s.event
    &&& t.waits == s.waits
}

/// A step that assigns binds the value of its expression to its variable and completes with it.
/// Without a value it fails and changes nothing.
pub proof fn lemma_assigned_value_is_bound(
    f: Fixed,
    s: PlanState,
    o: Report,
    step: PlanStep,
    a: StepAnswers,
    v: ValueTree,
)
    requires
        step.kind is Assign,
    ensures
        ({
            let expr = step.kind->Assign_expr;
            let var = step.kind->Assign_var@;
            let ran = step_ran(f, s, o, step, a);
            &&& stands_for(expr, a.value, v) ==> exists|t: PlanState| #[trigger]
                is_done(s, t, step.id@, v) && t.vars == s.vars.insert(var, v) && t.handles
                    == s.handles && t.receipts == s.receipts && t.event_wait == s.event_wait
                    && t.event_value == s.event_value && came_to(ran, t, o, a.invariants)
            &&& (forall|w: ValueTree| !#[trigger] stands_for(expr, a.value, w)) ==> ran.flow is Manifest
                && ran.state == s && ran.report == o
        }),
{
    let expr = step.kind->Assign_expr;
    lemma_invariants_are_judged(a.invariants);
    if stands_for(expr, a.value, v) {
        let t = super::steps::assigned(s, step.id@, step.kind->Assign_var@, v);
        assert(is_done(s, t, step.id@, v));
    }
    if forall|w: ValueTree| !#[trigger] stands_for(expr, a.value, w) {
        if let Ok(x) = a.value {
            assert(!stands_for(expr, a.value, x@));
        }
        if let ExprOrValue::Literal(l) = expr {
            if let Ok(x) = lit_to_value(l@) {
                assert(!stands_for(expr, a.value, x));
            }
        }
    }
}

/// What a step that has emitted an effect completes with.
pub open spec fn told_effect(handle: Seq<char>, hash: Seq<u8>, params: ValueTree) -> ValueTree {
    ValueTree::Record(
        seq![
            ("handle"@, ValueTree::Text(handle)),
            ("intent_hash"@, ValueTree::Bytes(hash)),
            ("params"@, params),
        ],
    )
}

/// What a step that has raised an event completes with.
pub open spec fn told_event(schema: Seq<char>, v: ValueTree) -> ValueTree {
    ValueTree::Record(seq![("schema"@, ValueTree::Text(schema)), ("value"@, v)])
}

/// The key of an effect is that of zeros where none is wanted, and else the bytes that the
/// expression evaluates to, which must be those of a digest.
pub proof fn lemma_key_of_an_effect(key: Option<ExprOrValue>, told: Evaluated, b: Seq<u8>)
    ensures
        key is None ==> emit_key(key, told) == Ok::<Seq<u8>, Flow>(Seq::new(32, |i: int| 0u8)),
        key matches Some(what) ==> stands_for(what, told, ValueTree::Bytes(b)) ==> if b.len()
            == 32 {
            emit_key(key, told) == Ok::<Seq<u8>, Flow>(b)
        } else {
            emit_key(key, told) is Err
        },
{
}

/// A step that emits an effect hands it over under its own grant, with the encoding of its params
/// and with its key. Where it is taken the report lists the intent after the others, the handle
/// stands for it, and the step completes with a record of handle, intent and params.
pub proof fn lemma_emitted_effect_is_handed_over<H: PlanHost>(
    mind: H::Evaluator,
    f: Fixed,
    s: PlanState,
    o: Report,
    step: PlanStep,
    a: StepAnswers,
    v: ValueTree,
    b: Seq<u8>,
    k: Seq<u8>,
)
    requires
        step.kind is EmitEffect,
        stands_for(step.kind->EmitEffect_params, a.value, v),
        cbor_printed(value_to_cbor(v)) == Ok::<Seq<u8>, Seq<char>>(b),
        emit_key(step.kind->EmitEffect_idempotency_key, a.key) == Ok::<Seq<u8>, Flow>(k),
    ensures
        ({
            let kind = step.kind->EmitEffect_kind@;
            let handle = step.kind->effect_id_as@;
            let id = step.id@;
            let ran = emitting_ran(f, s, o, step, a);
            &&& !f.caps.contains_key(id) ==> ran.flow is NoGrant && ran.state == s && ran.report
                == o
            &&& f.caps.contains_key(id) && emit_asked::<H>(
                mind,
                f,
                s,
                id,
                kind,
                step.kind->EmitEffect_params,
                handle,
                step.kind->EmitEffect_idempotency_key,
                a,
            ) ==> effect_asked::<H>(f.name, kind, f.caps[id], b, k, a.queued)
            &&& f.caps.contains_key(id) ==> (a.queued matches Ok(i) ==> exists|t: PlanState|
                #[trigger] is_done(
                    s,
                    t,
                    id,
                    told_effect(handle, i.intent_hash@, v),
                ) && t.vars == s.vars.insert(handle, ValueTree::Text(handle)) && t.handles
                    == s.handles.insert(handle, i.intent_hash@) && t.receipts == s.receipts
                    && t.event_wait == s.event_wait && t.event_value == s.event_value && came_to(
                    ran,
                    t,
                    Report { intents: o.intents.push(i), ..o },
                    a.invariants,
                ))
            &&& f.caps.contains_key(id) && a.queued is Err ==> ran == Ran {
                state: s,
                report: o,
                flow: Flow::Refused(a.queued->Err_0),
            }
        }),
{
    lemma_invariants_are_judged(a.invariants);
    if let Ok(i) = a.queued {
        let handle = step.kind->effect_id_as@;
        let t = super::steps::effect_emitted(s, step.id@, handle, i.intent_hash@, v);
        assert(is_done(s, t, step.id@, told_effect(handle, i.intent_hash@, v)));
    }
}

/// A step that waits for a receipt takes it where it has come: it binds the value, and the receipt
/// is used up. Else it waits for the intent that its handle stands for, and the report says so; a
/// handle that is none fails.
pub proof fn lemma_receipt_is_taken_or_awaited(
    f: Fixed,
    s: PlanState,
    o: Report,
    step: PlanStep,
    a: StepAnswers,
)
    requires
        step.kind is AwaitReceipt,
    ensures
        ({
            let id = step.id@;
            let var = step.kind->AwaitReceipt_var@;
            let ran = step_ran(f, s, o, step, a);
            &&& s.receipts.contains_key(id) ==> exists|t: PlanState| #[trigger]
                is_done(s, t, id, s.receipts[id]) && t.vars == s.vars.insert(var, s.receipts[id])
                    && t.receipts == s.receipts.remove(id) && t.handles == s.handles && t.event_wait
                    == s.event_wait && t.event_value == s.event_value && came_to(
                    ran,
                    t,
                    o,
                    a.invariants,
                )
            &&& !s.receipts.contains_key(id) ==> match a.value {
                Ok(x) => if x@ is Text && s.handles.contains_key(x@->Text_0) {
                    let hash = s.handles[x@->Text_0];
                    &&& ran.state.states == s.states.insert(id, StepState::WaitingReceipt)
                    &&& ran.state.waits.contains((hash, id))
                    &&& ran.state == PlanState {
                        states: ran.state.states,
                        waits: ran.state.waits,
                        ..s
                    }
                    &&& ran.report == Report { waiting: o.waiting.push(hash), ..o }
                    &&& ran.flow == Flow::Control(StepTickControl::Continue)
                } else {
                    ran.flow is Manifest && ran.state == s && ran.report == o
                },
                Err(_) => ran.flow is Manifest && ran.state == s && ran.report == o,
            }
        }),
{
    lemma_invariants_are_judged(a.invariants);
    let id = step.id@;
    if s.receipts.contains_key(id) {
        let t = super::steps::receipt_taken(s, id, step.kind->AwaitReceipt_var@);
        assert(is_done(s, t, id, s.receipts[id]));
    } else if let Ok(x) = a.value {
        if x@ is Text && s.handles.contains_key(x@->Text_0) {
            lemma_inserted_wait(s.waits, s.handles[x@->Text_0], id);
        }
    }
}

proof fn lemma_inserted_wait(waits: Seq<(Seq<u8>, Seq<char>)>, hash: Seq<u8>, step: Seq<char>)
    ensures
        wait_insert(waits, hash, step).contains((hash, step)),
        forall|w: (Seq<u8>, Seq<char>)|
            w.0 != hash ==> (#[trigger] wait_insert(waits, hash, step).contains(w)
                <==> waits.contains(w)),
    decreases waits.len(),
{
    let t = wait_insert(waits, hash, step);
    if waits.len() == 0 {
        assert(t[0] == (hash, step));
    } else {
        let tail = waits.drop_first();
        assert forall|w: (Seq<u8>, Seq<char>)| waits.contains(w) <==> (w == waits[0]
            || tail.contains(w)) by {
            if waits.contains(w) {
                let i = choose|i: int| 0 <= i < waits.len() && waits[i] == w;
                if i > 0 {
                    assert(tail[i - 1] == w);
                }
            }
            if tail.contains(w) {
                let i = choose|i: int| 0 <= i < tail.len() && tail[i] == w;
                assert(waits[i + 1] == w);
            }
        }
        let after = t.drop_first();
        assert forall|w: (Seq<u8>, Seq<char>)| t.contains(w) <==> (w == t[0] || after.contains(
            w,
        )) by {
            if t.contains(w) {
                let i = choose|i: int| 0 <= i < t.len() && t[i] == w;
                if i > 0 {
                    assert(after[i - 1] == w);
                }
            }
            if after.contains(w) {
                let i = choose|i: int| 0 <= i < after.len() && after[i] == w;
                assert(t[i + 1] == w);
            }
        }
        if waits[0].0 == hash {
            assert(after =~= tail);
        } else if crate::bytes::bytes_lt(hash, waits[0].0) {
            assert(after =~= waits);
        } else {
            lemma_inserted_wait(tail, hash, step);
            assert(after =~= wait_insert(tail, hash, step));
        }
    }
}

/// A step that waits for an event takes the one that has come: it binds the value, and waits no
/// more. Else it begins to wait, and the tick ends with the schema that is waited for. A correlated
/// run may wait only with a predicate.
pub proof fn lemma_event_is_taken_or_awaited(
    f: Fixed,
    s: PlanState,
    o: Report,
    step: PlanStep,
    a: StepAnswers,
)
    requires
        step.kind is AwaitEvent,
    ensures
        ({
            let id = step.id@;
            let schema = step.kind->AwaitEvent_event@;
            let clause = step.kind->where_clause;
            let ran = step_ran(f, s, o, step, a);
            if f.correlated && clause is None {
                ran.flow is Manifest && ran.state == s && ran.report == o
            } else if s.event_value is Some {
                let v = s.event_value->0;
                exists|t: PlanState| #[trigger]
                    is_done(s, t, id, v) && t.vars == s.vars.insert(
                        step.kind->AwaitEvent_var@,
                        v,
                    ) && t.event_value is None && t.event_wait is None && t.handles == s.handles
                        && t.receipts == s.receipts && came_to(ran, t, o, a.invariants)
            } else {
                &&& ran.state.states == s.states.insert(id, StepState::WaitingEvent)
                &&& ran.state.event_wait matches Some(w) && w.step_id == id && w.schema == schema
                    && w.where_clause == clause
                &&& ran.state == PlanState {
                    states: ran.state.states,
                    event_wait: ran.state.event_wait,
                    ..s
                }
                &&& ran.report == Report { event: Some(schema), ..o }
                &&& ran.flow == Flow::Control(StepTickControl::Return)
            }
        }),
{
    lemma_invariants_are_judged(a.invariants);
    if s.event_value is Some {
        let t = super::steps::event_awaited(
            s,
            step.id@,
            step.kind->AwaitEvent_event@,
            step.kind->where_clause,
            step.kind->AwaitEvent_var@,
        );
        assert(is_done(s, t, step.id@, s.event_value->0));
    }
}

/// A step that raises an event reports it after the others, under its schema, without a key, and as
/// the bytes of the value that the normal form of the literal reads back as; it completes with a
/// record of schema and value. A schema that is not known fails.
pub proof fn lemma_raised_event_goes_out(
    f: Fixed,
    s: PlanState,
    o: Report,
    step: PlanStep,
    a: StepAnswers,
    v: ValueTree,
    n: ValueTree,
    b: Seq<u8>,
)
    requires
        step.kind is RaiseEvent,
    ensures
        ({
            let id = step.id@;
            let schema = step.kind->RaiseEvent_event@;
            let ran = step_ran(f, s, o, step, a);
            &&& !f.schemas.contains_key(schema) ==> ran.flow is Manifest && ran.state == s
                && ran.report == o
            &&& f.schemas.contains_key(schema) && stands_for(step.kind->RaiseEvent_value, a.value, v)
                && hash_keys_valid(v) && value_to_lit(v) is Ok && (a.normal matches Ok(l)
                && lit_to_value(l@) == Ok::<ValueTree, Seq<char>>(n)) && cbor_printed(
                value_to_cbor(n),
            ) == Ok::<Seq<u8>, Seq<char>>(b) ==> exists|t: PlanState| #[trigger]
                is_done(s, t, id, told_event(schema, n)) && t.vars == s.vars && t.handles == s.handles && t.receipts == s.receipts
                    && t.event_wait == s.event_wait && t.event_value == s.event_value && came_to(
                    ran,
                    t,
                    Report { raised: o.raised.push((schema, b, None)), ..o },
                    a.invariants,
                )
        }),
{
    lemma_invariants_are_judged(a.invariants);
    let schema = step.kind->RaiseEvent_event@;
    let t = super::completed_with(s, step.id@, super::steps::event_record(schema, n));
    assert(is_done(s, t, step.id@, told_event(schema, n)));
}

/// An end step ends the run. A plan with an output must end with a result, and one without must
/// not; the report then carries the result in normal form, its schema and its bytes. A broken
/// invariant is reported.
pub proof fn lemma_end_ends_the_run(
    f: Fixed,
    s: PlanState,
    o: Report,
    step: PlanStep,
    a: StepAnswers,
    v: ValueTree,
    n: ValueTree,
)
    requires
        step.kind is End,
    ensures
        ({
            let id = step.id@;
            let result = step.kind->result;
            let ran = step_ran(f, s, o, step, a);
            &&& f.plan.output is Some != result is Some ==> ran.flow is Manifest && ran.state == s
                && ran.report == o
            &&& f.plan.output is None && result is None && all_hold(a.invariants) ==> {
                &&& ran.flow == Flow::Control(StepTickControl::Return)
                &&& ran.state == PlanState {
                    completed: true,
                    steps: s.steps.insert(id, ValueTree::Unit),
                    ..s
                }
                &&& ran.report == Report { completed: true, ..o }
            }
            &&& f.plan.output matches Some(name) ==> result matches Some(what) ==> (
            f.schemas.contains_key(name@) && stands_for(what, a.value, v) && hash_keys_valid(v)
                && value_to_lit(v) is Ok && (a.normal matches Ok(l) && lit_to_value(l@) == Ok::<
                ValueTree,
                Seq<char>,
            >(n)) && a.encoded is Ok ==> {
                let told = Report {
                    completed: true,
                    result: Some(n),
                    result_schema: Some(name@),
                    result_cbor: Some(a.encoded->Ok_0@),
                    ..o
                };
                &&& ran.state == PlanState { completed: true, steps: s.steps.insert(id, n), ..s }
                &&& all_hold(a.invariants) ==> ran.report == told && ran.flow == Flow::Control(
                    StepTickControl::Return,
                )
                &&& one_is_broken(a.invariants) ==> ran.report == Report {
                    error: Some("invariant_violation"@),
                    ..told
                } && ran.flow == Flow::Control(StepTickControl::Return)
            })
        }),
{
    lemma_invariants_are_judged(a.invariants);
}

/// A receipt goes to the step that waits for its intent, and to no other: the step can go on, the
/// value is kept for it, and the wait is over. The other waits stay. A receipt that no step waits
/// for changes nothing.
pub proof fn lemma_receipt_goes_to_the_waiting_step(s: PlanState, hash: Seq<u8>, v: ValueTree, k: int)
    requires
        super::waits_ordered(s.waits),
    ensures
        (forall|i: int| 0 <= i < s.waits.len() ==> (#[trigger] s.waits[i]).0 != hash)
            ==> receipt_delivered(s, hash, v) == s,
        0 <= k < s.waits.len() && s.waits[k].0 == hash ==> {
            let t = receipt_delivered(s, hash, v);
            let step = s.waits[k].1;
            &&& t.states == s.states.insert(step, StepState::Pending)
            &&& t.receipts == s.receipts.insert(step, v)
            &&& t.waits == s.waits.remove(k)
            &&& forall|i: int| 0 <= i < t.waits.len() ==> (#[trigger] t.waits[i]).0 != hash
            &&& t == PlanState {
                states: t.states,
                receipts: t.receipts,
                waits: t.waits,
                ..s
            }
        },
{
    lemma_wait_index(s.waits, hash);
    let w = wait_index(s.waits, hash);
    if 0 <= k < s.waits.len() && s.waits[k].0 == hash {
        crate::bytes::lemma_bytes_irreflexive(hash);
        assert(w == k) by {
            if w < k {
                assert(crate::bytes::bytes_lt(s.waits[w].0, s.waits[k].0));
            }
        }
        let t = receipt_delivered(s, hash, v);
        assert forall|i: int| 0 <= i < t.waits.len() implies (#[trigger] t.waits[i]).0 != hash by {
            let j = if i < k {
                i
            } else {
                i + 1
            };
            assert(t.waits[i] == s.waits[j]);
            if j < k {
                assert(crate::bytes::bytes_lt(s.waits[j].0, s.waits[k].0));
            } else {
                assert(crate::bytes::bytes_lt(s.waits[k].0, s.waits[j].0));
            }
        }
    }
}

/// An event is taken only by a step that waits for its schema, and where the step has a predicate
/// only if that is true of it. The step can then go on with the value. An event that is not taken
/// changes nothing.
pub proof fn lemma_event_goes_to_the_waiting_step(
    p: &PlanInstance,
    schema: Seq<char>,
    payload: Result<crate::cbor::CborTree, Seq<char>>,
    passes: Evaluated,
)
    ensures
        ({
            let (t, r) = event_outcome(p, schema, payload, passes);
            let s = p@;
            &&& s.event_wait is None || s.event_wait->0.schema != schema ==> t == s && r == Ok::<
                bool,
                Seq<char>,
            >(false)
            &&& r == Ok::<bool, Seq<char>>(true) ==> {
                &&& s.event_wait matches Some(w) && w.schema == schema
                &&& s.event_wait->0.where_clause is Some ==> is_true(passes)
                &&& event_candidate(p, schema, payload) matches Ok(Some(v)) && t == PlanState {
                    event_value: Some(v),
                    states: s.states.insert(s.event_wait->0.step_id, StepState::Pending),
                    ..s
                }
            }
            &&& r == Ok::<bool, Seq<char>>(false) ==> t == s
            &&& s.event_wait is Some && (event_candidate(p, schema, payload) matches Ok(Some(_)))
                && s.event_wait->0.where_clause is Some ==> {
                &&& is_true(passes) ==> r == Ok::<bool, Seq<char>>(true)
                &&& is_false(passes) ==> r == Ok::<bool, Seq<char>>(false)
                &&& !is_true(passes) && !is_false(passes) ==> r is Err
            }
            &&& s.event_wait is Some && (event_candidate(p, schema, payload) matches Ok(Some(_)))
                && s.event_wait->0.where_clause is None ==> r == Ok::<bool, Seq<char>>(true)
        }),
{
}

/// A run begins with every step of its plan pending and nothing else: no value, no wait, no
/// receipt, and not completed.
pub proof fn lemma_run_begins(
    steps: Seq<PlanStep>,
    input: ValueTree,
    vars: Map<Seq<char>, ValueTree>,
)
    ensures
        ({
            let s = initial_state(steps, input, vars);
            &&& !s.completed && s.input == input && s.vars == vars
            &&& s.steps.dom().is_empty() && s.handles.dom().is_empty() && s.receipts.dom().is_empty()
            &&& s.waits.len() == 0 && s.event is None && s.event_wait is None && s.event_value is None
            &&& forall|k: Seq<char>| #[trigger]
                s.states.contains_key(k) <==> exists|i: int|
                    0 <= i < steps.len() && (#[trigger] steps[i]).id@ == k
            &&& forall|i: int|
                0 <= i < steps.len() ==> s.states[(#[trigger] steps[i]).id@] == StepState::Pending
        }),
{
    lemma_begins(steps, steps.len());
}

proof fn lemma_begins(steps: Seq<PlanStep>, n: nat)
    requires
        n <= steps.len(),
    ensures
        forall|k: Seq<char>| #[trigger]
            initial_states(steps, n).contains_key(k) <==> exists|i: int|
                0 <= i < n && (#[trigger] steps[i]).id@ == k,
        forall|i: int|
            0 <= i < n ==> initial_states(steps, n)[(#[trigger] steps[i]).id@]
                == StepState::Pending,
    decreases n,
{
    if n > 0 {
        lemma_begins(steps, (n - 1) as nat);
        assert forall|k: Seq<char>| #[trigger] initial_states(steps, n).contains_key(k)
            <==> exists|i: int| 0 <= i < n && (#[trigger] steps[i]).id@ == k by {
            if k == steps[n - 1].id@ {
                assert(steps[n - 1].id@ == k);
            } else {
                assert(initial_states(steps, n).contains_key(k) == initial_states(
                    steps,
                    (n - 1) as nat,
                ).contains_key(k));
            }
        }
    }
}

/// Where no ready step emits an effect, the pass over them does nothing. Where one does, the plan
/// is looked at afresh afterwards, ends or fails: no other kind of step runs in the same look.
pub proof fn lemma_effects_go_first(
    f: Fixed,
    s: PlanState,
    o: Report,
    ids: Seq<Seq<char>>,
    answers: Seq<StepAnswers>,
    n: nat,
)
    requires
        n <= ids.len(),
    ensures
        ({
            let ran = emit_pass(f, s, o, ids, answers, n);
            &&& (forall|i: int| 0 <= i < n ==> !emits_effect(f.plan.steps@, #[trigger] ids[i]))
                <==> ran.flow == Flow::Control(StepTickControl::Continue)
            &&& ran.flow == Flow::Control(StepTickControl::Continue) ==> ran.state == s
                && ran.report == o
            &&& forall|k: Seq<char>|
                !(exists|i: int|
                    0 <= i < n && emits_effect(f.plan.steps@, #[trigger] ids[i]) && f.plan.steps@[
                    step_index(f.plan.steps@, ids[i], f.plan.steps@.len())].id@ == k)
                    ==> #[trigger] ran.state.states[k] == s.states[k]
        }),
    decreases n,
{
    if n > 0 {
        lemma_effects_go_first(f, s, o, ids, answers, (n - 1) as nat);
        let prev = emit_pass(f, s, o, ids, answers, (n - 1) as nat);
        let ran = emit_pass(f, s, o, ids, answers, n);
        let steps = f.plan.steps@;
        assert forall|k: Seq<char>|
            !(exists|i: int|
                0 <= i < n && emits_effect(steps, #[trigger] ids[i]) && steps[step_index(
                    steps,
                    ids[i],
                    steps.len(),
                )].id@ == k) implies #[trigger] ran.state.states[k] == s.states[k] by {
            assert(prev.state.states[k] == s.states[k]) by {
                if exists|i: int|
                    0 <= i < n - 1 && emits_effect(steps, #[trigger] ids[i]) && steps[step_index(
                        steps,
                        ids[i],
                        steps.len(),
                    )].id@ == k {
                    let i = choose|i: int|
                        0 <= i < n - 1 && emits_effect(steps, #[trigger] ids[i])
                            && steps[step_index(steps, ids[i], steps.len())].id@ == k;
                    assert(0 <= i < n);
                }
            }
            if emits_effect(steps, ids[n - 1]) {
                assert(steps[step_index(steps, ids[n - 1], steps.len())].id@ != k);
            }
        }
        if emits_effect(steps, ids[n - 1]) {
            assert(emits_effect(steps, ids[n - 1]));
        }
    }
}

/// Ready steps run in their order until one of them is done or ends the tick; the rest wait for the
/// next look.
pub proof fn lemma_first_done_step_stops(
    f: Fixed,
    s: PlanState,
    o: Report,
    ids: Seq<Seq<char>>,
    answers: Seq<StepAnswers>,
    k: nat,
    n: nat,
)
    requires
        k <= n,
        step_pass(f, s, o, ids, answers, k).0.flow != Flow::Control(StepTickControl::Continue),
    ensures
        step_pass(f, s, o, ids, answers, n) == step_pass(f, s, o, ids, answers, k),
    decreases n,
{
    if k < n {
        lemma_first_done_step_stops(f, s, o, ids, answers, k, (n - 1) as nat);
    }
}

/// The first ready step runs, and where it is done the look ends with what it has done.
pub proof fn lemma_ready_step_runs(
    f: Fixed,
    s: PlanState,
    o: Report,
    a: RoundAnswers,
    ids: Seq<Seq<char>>,
    k: int,
)
    requires
        ready_after_skips(s, f.plan.steps@, f.plan.edges@, a.guards).1 == Ok::<
            Seq<Seq<char>>,
            Seq<char>,
        >(ids),
        ids.len() > 0,
        0 <= k < f.plan.steps@.len(),
        f.plan.steps@[k].id@ == ids[0],
        forall|j: int| k < j < f.plan.steps@.len() ==> (#[trigger] f.plan.steps@[j]).id@ != ids[0],
        forall|i: int| 0 <= i < ids.len() ==> !emits_effect(f.plan.steps@, #[trigger] ids[i]),
    ensures
        ({
            let mid = ready_after_skips(s, f.plan.steps@, f.plan.edges@, a.guards).0;
            let ran = step_ran(f, mid, o, f.plan.steps@[k], a.steps[0]);
            ran.flow != Flow::Control(StepTickControl::Continue) ==> round(f, s, o, a) == ran
        }),
{
    let mid = ready_after_skips(s, f.plan.steps@, f.plan.edges@, a.guards).0;
    lemma_effects_go_first(f, mid, o, ids, a.emits, ids.len());
    lemma_index_is(f.plan.steps@, ids[0], k, f.plan.steps@.len());
    let ran = step_ran(f, mid, o, f.plan.steps@[k], a.steps[0]);
    assert(step_pass(f, mid, o, ids, a.steps, 1).0 == ran) by {
        reveal_with_fuel(step_pass, 2);
    }
    if ran.flow != Flow::Control(StepTickControl::Continue) {
        lemma_first_done_step_stops(f, mid, o, ids, a.steps, 1, ids.len());
    }
}

proof fn lemma_index_is(steps: Seq<PlanStep>, id: Seq<char>, k: int, n: nat)
    requires
        0 <= k < n <= steps.len(),
        steps[k].id@ == id,
        forall|j: int| k < j < steps.len() ==> (#[trigger] steps[j]).id@ != id,
    ensures
        step_index(steps, id, n) == k,
    decreases n,
{
    if k < n - 1 {
        lemma_index_is(steps, id, k, (n - 1) as nat);
    }
}

/// Where no step can run, the tick ends: with the receipts that are waited for, or the event, or
/// with the run completed where every step has ended, and else as it was.
pub proof fn lemma_nothing_left_to_run(s: PlanState, o: Report, values: Seq<Evaluated>)
    ensures
        ({
            let ran = rest(s, o, values);
            &&& s.waits.len() > 0 ==> {
                &&& ran.state == s
                &&& ran.flow == Flow::Control(StepTickControl::Return)
                &&& ran.report == Report { waiting: ran.report.waiting, ..o }
                &&& ran.report.waiting.len() == o.waiting.len() + s.waits.len()
                &&& forall|i: int|
                    0 <= i < s.waits.len() ==> ran.report.waiting[o.waiting.len() + i] == (
                    #[trigger] s.waits[i]).0
            }
            &&& s.waits.len() == 0 && s.event_wait is Some ==> ran == Ran {
                state: s,
                report: Report { event: Some(s.event_wait->0.schema), ..o },
                flow: Flow::Control(StepTickControl::Return),
            }
            &&& s.waits.len() == 0 && s.event_wait is None && is_over(s.states) && all_hold(values)
                ==> ran == Ran {
                state: PlanState { completed: true, ..s },
                report: Report { completed: true, ..o },
                flow: Flow::Control(StepTickControl::Return),
            }
            &&& s.waits.len() == 0 && s.event_wait is None && !is_over(s.states) ==> ran == Ran {
                state: s,
                report: o,
                flow: Flow::Control(StepTickControl::Return),
            }
        }),
{
    lemma_invariants_are_judged(values);
}

/// A run that waits for one receipt can be told to wait for another in its place: the same step
/// then waits for that one. A run that waits for it already, or for more than one, is left as it
/// is, and nothing but the waits ever changes.
pub proof fn lemma_only_wait_is_moved(s: PlanState, hash: Seq<u8>)
    ensures
        ({
            let t = wait_moved(s, hash);
            &&& t == (PlanState { waits: t.waits, ..s })
            &&& s.waits.len() != 1 ==> t == s
            &&& s.waits.len() == 1 && s.waits[0].0 == hash ==> t.waits == s.waits
            &&& s.waits.len() == 1 ==> t.waits.len() == 1 && t.waits[0].1 == s.waits[0].1
                && t.waits[0].0 == hash
        }),
{
    if s.waits.len() == 1 {
        lemma_wait_index(s.waits, hash);
    }
}

/// An effect that cannot be handed over, or after which the run is over, stops the effects behind
/// it; after one that was handed over the next goes out.
pub proof fn lemma_failed_effect_stops_the_rest(
    f: Fixed,
    s: PlanState,
    o: Report,
    ids: Seq<Seq<char>>,
    answers: Seq<StepAnswers>,
    k: nat,
    n: nat,
)
    requires
        k <= n,
        !(emit_pass(f, s, o, ids, answers, k).flow matches Flow::Control(c) && !(c is Return)),
    ensures
        emit_pass(f, s, o, ids, answers, n) == emit_pass(f, s, o, ids, answers, k),
    decreases n,
{
    if k < n {
        lemma_failed_effect_stops_the_rest(f, s, o, ids, answers, k, (n - 1) as nat);
    }
}

/// After an effect was handed over the next ready one goes out, from the state that the first left.
pub proof fn lemma_next_effect_goes_out(
    f: Fixed,
    s: PlanState,
    o: Report,
    ids: Seq<Seq<char>>,
    answers: Seq<StepAnswers>,
    n: nat,
)
    requires
        0 < n <= ids.len(),
        emits_effect(f.plan.steps@, ids[n - 1]),
        emit_pass(f, s, o, ids, answers, (n - 1) as nat).flow matches Flow::Control(c)
            && !(c is Return),
    ensures
        ({
            let prev = emit_pass(f, s, o, ids, answers, (n - 1) as nat);
            let steps = f.plan.steps@;
            emit_pass(f, s, o, ids, answers, n) == emitting_ran(
                f,
                prev.state,
                prev.report,
                steps[step_index(steps, ids[n - 1], steps.len())],
                answers[n - 1],
            )
        }),
{
}

/// A round after which no step is done comes back: with the receipts that it waits for, unless a
/// step has just begun to wait and has told of its own; and a run of which every step is done is
/// over.
pub proof fn lemma_round_without_a_done_step_comes_back(
    s: PlanState,
    o: Report,
    registered: bool,
    values: Seq<Evaluated>,
)
    ensures
        ({
            let ran = held(s, o, registered, values);
            let over = !registered && s.waits.len() == 0 && (forall|k: Seq<char>| #[trigger]
                s.states.contains_key(k) ==> s.states[k] is Completed || s.states[k] is Skipped);
            &&& ran.state == PlanState { completed: s.completed || over, ..s }
            &&& !(ran.flow is Manifest) ==> ran.flow == Flow::Control(StepTickControl::Return)
            &&& ran.flow is Manifest ==> over
            &&& ran.report.completed == (o.completed || over)
            &&& registered ==> ran.report == o
            &&& !registered && s.waits.len() > 0 ==> ran.report.waiting.len() == o.waiting.len()
                + s.waits.len() && forall|i: int|
                0 <= i < s.waits.len() ==> ran.report.waiting[o.waiting.len() + i]
                    == (#[trigger] s.waits[i]).0
        }),
{
}

} // verus!
