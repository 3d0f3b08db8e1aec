//! What holds of plans as a whole.
use vstd::prelude::*;

use crate::cbor::cbor_printed;
use crate::cbor_codec::value_to_cbor;
use crate::codec::lit_to_value;
use crate::value::ValueTree;

use super::course::{await_event_ran, await_receipt_ran, emit_ran, raise_ran, Fixed, Flow, Report,
    StepAnswers};
use super::readiness::{edge_active, has_edge_to, readiness, scan_edges, Evaluated, StepReadiness};
use super::snapshot::{restored, PlanInstanceSnapshot};
use super::steps::{event_awaited, receipt_taken};
use super::tick::StepTickControl;
use super::waits::{event_judged, lemma_wait_index, lemma_wait_insert, receipt_awaited, receipt_delivered,
    wait_index, wait_insert, waits_for};
use super::{is_final, Expr, ExprOrValue, PlanEdge, PlanInstance, PlanState, StepState};

verus! {

/// A step whose predecessors have all been skipped is skipped, whatever the guards say: skipping
/// never activates what comes after.
pub proof fn lemma_skipped_step_does_not_activate(
    edges: Seq<PlanEdge>,
    guards: Seq<Option<Evaluated>>,
    states: Map<Seq<char>, StepState>,
    id: Seq<char>,
)
    requires
        has_edge_to(edges, id),
        forall|i: int|
            0 <= i < edges.len() && (#[trigger] edges[i]).to@ == id ==> states.contains_key(
                edges[i].from@,
            ) && states[edges[i].from@] == StepState::Skipped,
    ensures
        readiness(edges, guards, states, id) == Ok::<StepReadiness, Seq<char>>(StepReadiness::Skip),
{
    lemma_scan_all_skipped(edges, guards, states, id, edges.len());
}

proof fn lemma_scan_all_skipped(
    edges: Seq<PlanEdge>,
    guards: Seq<Option<Evaluated>>,
    states: Map<Seq<char>, StepState>,
    id: Seq<char>,
    n: nat,
)
    requires
        n <= edges.len(),
        forall|i: int|
            0 <= i < edges.len() && (#[trigger] edges[i]).to@ == id ==> states.contains_key(
                edges[i].from@,
            ) && states[edges[i].from@] == StepState::Skipped,
    ensures
        scan_edges(edges, guards, states, id, n) == Ok::<(bool, bool), Seq<char>>((false, false)),
    decreases n,
{
    if n > 0 {
        lemma_scan_all_skipped(edges, guards, states, id, (n - 1) as nat);
        assert(edges[n - 1].to@ == id ==> states[edges[n - 1].from@] == StepState::Skipped);
    }
}

/// A step never runs before every step that leads to it has ended.
pub proof fn lemma_ready_after_predecessors(
    edges: Seq<PlanEdge>,
    guards: Seq<Option<Evaluated>>,
    states: Map<Seq<char>, StepState>,
    id: Seq<char>,
    i: int,
)
    requires
        readiness(edges, guards, states, id) == Ok::<StepReadiness, Seq<char>>(
            StepReadiness::Ready,
        ) || readiness(edges, guards, states, id) == Ok::<StepReadiness, Seq<char>>(
            StepReadiness::Skip,
        ),
        0 <= i < edges.len(),
        edges[i].to@ == id,
    ensures
        states.contains_key(edges[i].from@),
        is_final(states[edges[i].from@]),
{
    assert(has_edge_to(edges, id));
    lemma_scan_waiting(edges, guards, states, id, i, edges.len());
}

proof fn lemma_scan_waiting(
    edges: Seq<PlanEdge>,
    guards: Seq<Option<Evaluated>>,
    states: Map<Seq<char>, StepState>,
    id: Seq<char>,
    i: int,
    n: nat,
)
    requires
        0 <= i < n <= edges.len(),
        edges[i].to@ == id,
        scan_edges(edges, guards, states, id, n) is Ok,
        !scan_edges(edges, guards, states, id, n)->Ok_0.1,
    ensures
        states.contains_key(edges[i].from@),
        is_final(states[edges[i].from@]),
    decreases n,
{
    if i < n - 1 {
        lemma_scan_waiting(edges, guards, states, id, i, (n - 1) as nat);
    }
}

/// A receipt that was waited for and has come is what the waiting step binds to its variable, and
/// completes with.
pub proof fn lemma_receipt_reaches_its_step(
    s: PlanState,
    step: Seq<char>,
    hash: Seq<u8>,
    v: ValueTree,
    var: Seq<char>,
)
    ensures
        ({
            let waiting = receipt_awaited(s, step, hash);
            let delivered = receipt_delivered(waiting, hash, v);
            let taken = receipt_taken(delivered, step, var);
            &&& waits_for(waiting.waits, hash)
            &&& waiting.states[step] == StepState::WaitingReceipt
            &&& delivered.states[step] == StepState::Pending
            &&& taken.states[step] == StepState::Completed
            &&& taken.vars[var] == v
            &&& taken.steps[step] == v
        }),
{
    let waiting = receipt_awaited(s, step, hash);
    lemma_wait_insert(s.waits, hash, step, hash);
    lemma_wait_index(waiting.waits, hash);
    lemma_wait_step(s.waits, hash, step);
}

proof fn lemma_wait_step(waits: Seq<(Seq<u8>, Seq<char>)>, hash: Seq<u8>, step: Seq<char>)
    ensures
        ({
            let t = wait_insert(waits, hash, step);
            wait_index(t, hash) < t.len() && t[wait_index(t, hash)] == (hash, step)
        }),
    decreases waits.len(),
{
    let t = wait_insert(waits, hash, step);
    if waits.len() > 0 && waits[0].0 != hash && !crate::bytes::bytes_lt(hash, waits[0].0) {
        assert(t.drop_first() =~= wait_insert(waits.drop_first(), hash, step));
        lemma_wait_step(waits.drop_first(), hash, step);
        lemma_wait_index(t.drop_first(), hash);
        assert(t[1 + wait_index(t.drop_first(), hash)] == t.drop_first()[wait_index(
            t.drop_first(),
            hash,
        )]);
    }
}

/// A run restored from its own snapshot is where it was.
pub proof fn lemma_snapshot_restores_run(
    saved: PlanInstance,
    snap: PlanInstanceSnapshot,
    back: PlanInstance,
)
    requires
        restored(snap) == saved@,
        back@ == restored(snap),
    ensures
        back@ == saved@,
{
}

/// A step that waits for a receipt binds nothing before the receipt has come: it waits, or the
/// tick fails.
pub proof fn lemma_await_receipt_blocks(
    s: PlanState,
    o: Report,
    step: Seq<char>,
    var: Seq<char>,
    a: StepAnswers,
)
    requires
        !s.receipts.contains_key(step),
    ensures
        ({
            let ran = await_receipt_ran(s, o, step, var, a);
            &&& ran.state.vars == s.vars
            &&& ran.state.steps == s.steps
            &&& ran.flow == Flow::Control(StepTickControl::Continue) ==> ran.state.states[step]
                == StepState::WaitingReceipt
            &&& ran.flow != Flow::Control(StepTickControl::RestartTick)
        }),
{
}

/// A step that waits for an event binds nothing before an event has come: it waits, and the tick
/// says for which schema, or the tick fails.
pub proof fn lemma_await_event_blocks(
    f: Fixed,
    s: PlanState,
    o: Report,
    step: Seq<char>,
    event: Seq<char>,
    where_clause: Option<Expr>,
    var: Seq<char>,
    a: StepAnswers,
)
    requires
        s.event_value is None,
    ensures
        ({
            let ran = await_event_ran(f, s, o, step, event, where_clause, var, a);
            &&& ran.state.vars == s.vars
            &&& ran.state.steps == s.steps
            &&& ran.flow == Flow::Control(StepTickControl::Return) ==> ran.state.states[step]
                == StepState::WaitingEvent && ran.report.event == Some(event)
            &&& ran.flow != Flow::Control(StepTickControl::RestartTick)
        }),
{
}

/// An event that is taken by the step that waits for it is what the step binds to its variable,
/// and completes with.
pub proof fn lemma_event_reaches_its_step(
    s: PlanState,
    step: Seq<char>,
    event: Seq<char>,
    where_clause: Option<Expr>,
    var: Seq<char>,
    v: ValueTree,
    passes: Option<Result<ValueTree, Seq<char>>>,
)
    requires
        s.event_value is None,
        event_judged(event_awaited(s, step, event, where_clause, var), v, passes).1 == Ok::<
            bool,
            Seq<char>,
        >(true),
    ensures
        ({
            let waiting = event_awaited(s, step, event, where_clause, var);
            let taken = event_judged(waiting, v, passes).0;
            let done = event_awaited(taken, step, event, where_clause, var);
            &&& waiting.states[step] == StepState::WaitingEvent
            &&& taken.states[step] == StepState::Pending
            &&& done.states[step] == StepState::Completed
            &&& done.vars[var] == v
            &&& done.steps[step] == v
            &&& done.event_wait is None
        }),
{
}

/// A step to which only edges lead whose guards are false never runs: once the steps before it
/// have completed it is skipped.
pub proof fn lemma_false_guards_skip(
    edges: Seq<PlanEdge>,
    guards: Seq<Option<Evaluated>>,
    states: Map<Seq<char>, StepState>,
    id: Seq<char>,
)
    requires
        has_edge_to(edges, id),
        forall|i: int|
            0 <= i < edges.len() && (#[trigger] edges[i]).to@ == id ==> states.contains_key(
                edges[i].from@,
            ) && states[edges[i].from@] == StepState::Completed && edge_active(edges[i], guards[i])
                == Ok::<bool, Seq<char>>(false),
    ensures
        readiness(edges, guards, states, id) == Ok::<StepReadiness, Seq<char>>(StepReadiness::Skip),
{
    lemma_scan_false(edges, guards, states, id, edges.len());
}

proof fn lemma_scan_false(
    edges: Seq<PlanEdge>,
    guards: Seq<Option<Evaluated>>,
    states: Map<Seq<char>, StepState>,
    id: Seq<char>,
    n: nat,
)
    requires
        n <= edges.len(),
        forall|i: int|
            0 <= i < edges.len() && (#[trigger] edges[i]).to@ == id ==> states.contains_key(
                edges[i].from@,
            ) && states[edges[i].from@] == StepState::Completed && edge_active(edges[i], guards[i])
                == Ok::<bool, Seq<char>>(false),
    ensures
        scan_edges(edges, guards, states, id, n) == Ok::<(bool, bool), Seq<char>>((false, false)),
    decreases n,
{
    if n > 0 {
        lemma_scan_false(edges, guards, states, id, (n - 1) as nat);
        assert(edges[n - 1].to@ == id ==> states[edges[n - 1].from@] == StepState::Completed);
    }
}

/// An effect that was emitted is in the report, and its handle stands for its intent.
pub proof fn lemma_emitted_effect_is_recorded(
    f: Fixed,
    s: PlanState,
    o: Report,
    step: Seq<char>,
    params: ExprOrValue,
    cap: Seq<char>,
    handle: Seq<char>,
    key: Option<ExprOrValue>,
    a: StepAnswers,
)
    requires
        emit_ran(f, s, o, step, params, cap, handle, key, a).flow == Flow::Control(
            StepTickControl::RestartTick,
        ),
    ensures
        ({
            let ran = emit_ran(f, s, o, step, params, cap, handle, key, a);
            a.queued matches Ok(intent) && {
                &&& ran.report.intents == o.intents.push(intent)
                &&& ran.state.handles[handle] == intent.intent_hash@
                &&& ran.state.states[step] == StepState::Completed
            }
        }),
{
}

/// An event that was raised is in the report, under its schema and without a key, as the bytes of
/// a value in the normal form of the schema.
pub proof fn lemma_raised_event_is_reported(
    f: Fixed,
    s: PlanState,
    o: Report,
    step: Seq<char>,
    event: Seq<char>,
    value: ExprOrValue,
    a: StepAnswers,
)
    requires
        raise_ran(f, s, o, step, event, value, a).flow == Flow::Control(
            StepTickControl::RestartTick,
        ),
    ensures
        ({
            let ran = raise_ran(f, s, o, step, event, value, a);
            &&& a.normal matches Ok(l) && lit_to_value(l@) matches Ok(n) && cbor_printed(
                value_to_cbor(n),
            ) matches Ok(b) && ran.report.raised == o.raised.push((event, b, None))
            &&& ran.state.states[step] == StepState::Completed
        }),
{
}

} // verus!
