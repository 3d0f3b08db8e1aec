//! Which steps of a plan run, are skipped or wait, in terms of the edges and guards alone.
use vstd::prelude::*;

use crate::value::{value_kind, ValueTree};

use super::readiness::{lemma_pending_drops, lemma_scan_skip, lemma_skipped_states, pending_count,
    readiness, ready_after_skips, scan_edges, scan_steps, skipped, Evaluated, StepReadiness};
use super::{PlanEdge, PlanState, PlanStep, StepState};

verus! {

/// The edge at `i` leads to `id` from a step that has completed.
pub open spec fn counts(
    edges: Seq<PlanEdge>,
    states: Map<Seq<char>, StepState>,
    id: Seq<char>,
    i: int,
) -> bool {
    &&& 0 <= i < edges.len()
    &&& edges[i].to@ == id
    &&& states.contains_key(edges[i].from@)
    &&& states[edges[i].from@] == StepState::Completed
}

/// The edge at `i` leads to `id` from a step that has not come to its end.
pub open spec fn holds_up(
    edges: Seq<PlanEdge>,
    states: Map<Seq<char>, StepState>,
    id: Seq<char>,
    i: int,
) -> bool {
    &&& 0 <= i < edges.len()
    &&& edges[i].to@ == id
    &&& !(states.contains_key(edges[i].from@) && (states[edges[i].from@] == StepState::Completed
        || states[edges[i].from@] == StepState::Skipped))
}

/// An edge has no guard, or one that came out true.
pub open spec fn is_open(edge: PlanEdge, guard: Option<Evaluated>) -> bool {
    edge.when is None || (guard matches Some(Ok(v)) && v@ == ValueTree::Bool(true))
}

/// The guard of an edge came out neither true nor false.
pub open spec fn is_faulty(edge: PlanEdge, guard: Option<Evaluated>) -> bool {
    &&& edge.when is Some
    &&& match guard {
        None => false,
        Some(Err(_)) => true,
        Some(Ok(v)) => !(v@ is Bool),
    }
}

/// What the error of a faulty guard says.
pub open spec fn fault_text(guard: Option<Evaluated>) -> Seq<char> {
    match guard {
        Some(Err(e)) => "guard eval error: "@ + e@,
        Some(Ok(v)) => "guard expression must return bool, got "@ + value_kind(v@),
        None => Seq::empty(),
    }
}

proof fn lemma_scan(
    edges: Seq<PlanEdge>,
    guards: Seq<Option<Evaluated>>,
    states: Map<Seq<char>, StepState>,
    id: Seq<char>,
    n: nat,
)
    requires
        guards.len() == edges.len(),
        n <= edges.len(),
    ensures
        match scan_edges(edges, guards, states, id, n) {
            Err(t) => exists|i: int| #[trigger]
                counts(edges, states, id, i) && i < n && is_faulty(edges[i], guards[i]) && t
                    == fault_text(guards[i]) && forall|j: int| #[trigger]
                    counts(edges, states, id, j) && j < i ==> !is_faulty(edges[j], guards[j]),
            Ok((active, waiting)) => {
                &&& forall|i: int| #[trigger]
                    counts(edges, states, id, i) && i < n ==> !is_faulty(edges[i], guards[i])
                &&& active == exists|i: int| #[trigger]
                    counts(edges, states, id, i) && i < n && is_open(edges[i], guards[i])
                &&& waiting == exists|i: int| #[trigger] holds_up(edges, states, id, i) && i < n
            },
        },
    decreases n,
{
    if n > 0 {
        lemma_scan(edges, guards, states, id, (n - 1) as nat);
        let k = n - 1;
        match scan_edges(edges, guards, states, id, n) {
            Err(t) => {
                if scan_edges(edges, guards, states, id, (n - 1) as nat) is Ok {
                    assert(counts(edges, states, id, k) && is_faulty(edges[k], guards[k]));
                    assert(t == fault_text(guards[k]));
                }
            },
            Ok((active, waiting)) => {
                let (was_active, was_waiting) = scan_edges(
                    edges,
                    guards,
                    states,
                    id,
                    (n - 1) as nat,
                )->Ok_0;
                assert(active == (was_active || (counts(edges, states, id, k) && is_open(
                    edges[k],
                    guards[k],
                ))));
                assert(waiting == (was_waiting || holds_up(edges, states, id, k)));
                assert(counts(edges, states, id, k) ==> !is_faulty(edges[k], guards[k]));
            },
        }
    }
}

/// What decides of a step is what all the edges to it say together, in whatever order they stand.
/// A guard of an edge from a completed step that is neither true nor false is an error. Else the
/// step is blocked while a step before it has not come to its end. Else it can run where no edge
/// leads to it or an edge from a completed step is open, and is skipped where none is.
pub proof fn lemma_readiness(
    edges: Seq<PlanEdge>,
    guards: Seq<Option<Evaluated>>,
    states: Map<Seq<char>, StepState>,
    id: Seq<char>,
)
    requires
        guards.len() == edges.len(),
    ensures
        ({
            let r = readiness(edges, guards, states, id);
            let fault = exists|i: int| #[trigger]
                counts(edges, states, id, i) && is_faulty(edges[i], guards[i]);
            let waits = exists|i: int| #[trigger] holds_up(edges, states, id, i);
            let active = exists|i: int| #[trigger]
                counts(edges, states, id, i) && is_open(edges[i], guards[i]);
            let free = forall|i: int| 0 <= i < edges.len() ==> (#[trigger] edges[i]).to@ != id;
            &&& fault <==> r is Err
            &&& !fault && waits <==> r == Ok::<StepReadiness, Seq<char>>(StepReadiness::Blocked)
            &&& !fault && !waits && (free || active) <==> r == Ok::<StepReadiness, Seq<char>>(
                StepReadiness::Ready,
            )
            &&& !fault && !waits && !free && !active <==> r == Ok::<StepReadiness, Seq<char>>(
                StepReadiness::Skip,
            )
        }),
        readiness(edges, guards, states, id) matches Err(t) ==> exists|i: int| #[trigger]
            counts(edges, states, id, i) && is_faulty(edges[i], guards[i]) && t == fault_text(
                guards[i],
            ) && forall|j: int| #[trigger]
                counts(edges, states, id, j) && j < i ==> !is_faulty(edges[j], guards[j]),
{
    lemma_scan(edges, guards, states, id, edges.len());
    let free = forall|i: int| 0 <= i < edges.len() ==> (#[trigger] edges[i]).to@ != id;
    if free {
        assert forall|i: int| !#[trigger] counts(edges, states, id, i) by {}
        assert forall|i: int| !#[trigger] holds_up(edges, states, id, i) by {}
    }
}

/// One open edge is enough: where every step before `id` has come to its end and no guard is
/// faulty, `id` can run as soon as one edge from a completed step is open, whatever the other
/// guards say.
pub proof fn lemma_open_edge_readies(
    edges: Seq<PlanEdge>,
    guards: Seq<Option<Evaluated>>,
    states: Map<Seq<char>, StepState>,
    id: Seq<char>,
    k: int,
)
    requires
        guards.len() == edges.len(),
        forall|i: int|
            0 <= i < edges.len() && (#[trigger] edges[i]).to@ == id ==> {
                &&& states.contains_key(edges[i].from@)
                &&& states[edges[i].from@] == StepState::Completed || states[edges[i].from@]
                    == StepState::Skipped
                &&& states[edges[i].from@] == StepState::Completed && edges[i].when is Some ==> (
                guards[i] matches Some(g) ==> g matches Ok(v) && v@ is Bool)
            },
        0 <= k < edges.len(),
        edges[k].to@ == id,
        states[edges[k].from@] == StepState::Completed,
        edges[k].when is None || (guards[k] matches Some(Ok(v)) && v@ == ValueTree::Bool(true)),
    ensures
        readiness(edges, guards, states, id) == Ok::<StepReadiness, Seq<char>>(
            StepReadiness::Ready,
        ),
{
    lemma_readiness(edges, guards, states, id);
    assert(counts(edges, states, id, k) && is_open(edges[k], guards[k]));
    assert forall|i: int| !#[trigger] holds_up(edges, states, id, i) by {
        assert(0 <= i < edges.len() ==> edges[i].to@ == edges[i].to@);
    }
    assert forall|i: int| #[trigger] counts(edges, states, id, i) implies !is_faulty(
        edges[i],
        guards[i],
    ) by {
        assert(edges[i].to@ == id);
    }
}

/// The ids of steps, in order.
pub open spec fn step_ids(steps: Seq<PlanStep>) -> Seq<Seq<char>> {
    Seq::new(steps.len(), |i: int| steps[i].id@)
}

/// Whether a step is pending and comes out as `what`.
pub open spec fn comes_out(
    edges: Seq<PlanEdge>,
    guards: Seq<Option<Evaluated>>,
    states: Map<Seq<char>, StepState>,
    what: StepReadiness,
    id: Seq<char>,
) -> bool {
    states[id] == StepState::Pending && readiness(edges, guards, states, id) == Ok::<
        StepReadiness,
        Seq<char>,
    >(what)
}

/// The steps of a plan that are pending and come out as `what`, in the order of the plan.
pub open spec fn coming_out(
    steps: Seq<PlanStep>,
    edges: Seq<PlanEdge>,
    guards: Seq<Option<Evaluated>>,
    states: Map<Seq<char>, StepState>,
    what: StepReadiness,
) -> Seq<Seq<char>> {
    step_ids(steps).filter(|id: Seq<char>| comes_out(edges, guards, states, what, id))
}

proof fn lemma_scan_lists(
    steps: Seq<PlanStep>,
    edges: Seq<PlanEdge>,
    guards: Seq<Option<Evaluated>>,
    states: Map<Seq<char>, StepState>,
    n: nat,
)
    requires
        n <= steps.len(),
    ensures
        match scan_steps(steps, edges, guards, states, n) {
            Err(t) => exists|k: int|
                0 <= k < n && states[(#[trigger] steps[k]).id@] == StepState::Pending && readiness(
                    edges,
                    guards,
                    states,
                    steps[k].id@,
                ) == Err::<StepReadiness, Seq<char>>(t),
            Ok((ready, skip)) => {
                &&& ready == coming_out(
                    steps.take(n as int),
                    edges,
                    guards,
                    states,
                    StepReadiness::Ready,
                )
                &&& skip == coming_out(
                    steps.take(n as int),
                    edges,
                    guards,
                    states,
                    StepReadiness::Skip,
                )
                &&& forall|k: int|
                    0 <= k < n && states[(#[trigger] steps[k]).id@] == StepState::Pending
                        ==> readiness(edges, guards, states, steps[k].id@) is Ok
            },
        },
    decreases n,
{
    reveal(Seq::filter);
    let ids = step_ids(steps.take(n as int));
    if n > 0 {
        lemma_scan_lists(steps, edges, guards, states, (n - 1) as nat);
        assert(ids.drop_last() =~= step_ids(steps.take(n - 1)));
        assert(ids.last() == steps[n - 1].id@);
    } else {
        assert(ids.len() == 0);
    }
}

/// Among the steps of a plan, those are ready that are pending and come out so, in the order of the
/// plan, and likewise those to skip. An error comes from a pending step, and only from one.
pub proof fn lemma_steps_are_sorted_out(
    steps: Seq<PlanStep>,
    edges: Seq<PlanEdge>,
    guards: Seq<Option<Evaluated>>,
    states: Map<Seq<char>, StepState>,
)
    ensures
        match scan_steps(steps, edges, guards, states, steps.len()) {
            Err(t) => exists|k: int|
                0 <= k < steps.len() && states[(#[trigger] steps[k]).id@] == StepState::Pending
                    && readiness(edges, guards, states, steps[k].id@) == Err::<
                    StepReadiness,
                    Seq<char>,
                >(t),
            Ok((ready, skip)) => {
                &&& ready == coming_out(steps, edges, guards, states, StepReadiness::Ready)
                &&& skip == coming_out(steps, edges, guards, states, StepReadiness::Skip)
                &&& forall|k: int|
                    0 <= k < steps.len() && states[(#[trigger] steps[k]).id@] == StepState::Pending
                        ==> readiness(edges, guards, states, steps[k].id@) is Ok
            },
        },
{
    lemma_scan_lists(steps, edges, guards, states, steps.len());
    assert(steps.take(steps.len() as int) =~= steps);
}

/// A step that is skipped stays one to skip while others are skipped too.
proof fn lemma_skip_stays(
    edges: Seq<PlanEdge>,
    guards: Seq<Option<Evaluated>>,
    before: Map<Seq<char>, StepState>,
    after: Map<Seq<char>, StepState>,
    id: Seq<char>,
)
    requires
        guards.len() == edges.len(),
        readiness(edges, guards, before, id) == Ok::<StepReadiness, Seq<char>>(StepReadiness::Skip),
        forall|k: Seq<char>| #[trigger] before.contains_key(k) ==> after.contains_key(k),
        forall|k: Seq<char>| #[trigger]
            after[k] == before[k] || (before[k] == StepState::Pending && after[k]
                == StepState::Skipped),
    ensures
        readiness(edges, guards, after, id) == Ok::<StepReadiness, Seq<char>>(StepReadiness::Skip),
{
    lemma_readiness(edges, guards, before, id);
    lemma_readiness(edges, guards, after, id);
    assert forall|i: int| #[trigger] counts(edges, after, id, i) implies counts(
        edges,
        before,
        id,
        i,
    ) by {
        assert(!holds_up(edges, before, id, i));
        let x = after[edges[i].from@];
    }
    assert forall|i: int| !#[trigger] holds_up(edges, after, id, i) by {
        assert(!holds_up(edges, before, id, i));
        if 0 <= i < edges.len() {
            let x = after[edges[i].from@];
        }
    }
}

/// Skips spread until a step can run or nothing is left to skip. Where a step can run at once,
/// nothing is skipped. A step is skipped only where all before it have ended and no edge to it is
/// open, and only a pending one is. What is found ready is what is ready there.
pub proof fn lemma_skips_spread(
    s: PlanState,
    steps: Seq<PlanStep>,
    edges: Seq<PlanEdge>,
    guards: Seq<Option<Evaluated>>,
)
    requires
        guards.len() == edges.len(),
        forall|i: int|
            0 <= i < steps.len() ==> s.states.contains_key((#[trigger] steps[i]).id@),
    ensures
        ({
            let (t, r) = ready_after_skips(s, steps, edges, guards);
            &&& t.states.dom() == s.states.dom()
            &&& t == PlanState { states: t.states, completed: t.completed, ..s }
            &&& forall|k: Seq<char>| #[trigger]
                t.states[k] == s.states[k] || {
                    &&& s.states[k] == StepState::Pending
                    &&& t.states[k] == StepState::Skipped
                    &&& readiness(edges, guards, t.states, k) == Ok::<StepReadiness, Seq<char>>(
                        StepReadiness::Skip,
                    )
                }
            &&& coming_out(steps, edges, guards, s.states, StepReadiness::Ready).len() > 0 && (
            forall|k: int|
                0 <= k < steps.len() && s.states[(#[trigger] steps[k]).id@] == StepState::Pending
                    ==> readiness(edges, guards, s.states, steps[k].id@) is Ok) ==> t == s
            &&& match r {
                Err(e) => exists|k: int|
                    0 <= k < steps.len() && t.states[(#[trigger] steps[k]).id@]
                        == StepState::Pending && readiness(edges, guards, t.states, steps[k].id@)
                        == Err::<StepReadiness, Seq<char>>(e),
                Ok(ids) => {
                    &&& ids == coming_out(steps, edges, guards, t.states, StepReadiness::Ready)
                    &&& ids.len() == 0 ==> coming_out(
                        steps,
                        edges,
                        guards,
                        t.states,
                        StepReadiness::Skip,
                    ).len() == 0
                },
            }
            &&& s.completed ==> t.completed
            &&& t.completed && !s.completed ==> t.states != s.states
            &&& t.states != s.states ==> t.completed == (s.completed || forall|k: Seq<char>|
                #[trigger] t.states.contains_key(k) ==> t.states[k] == StepState::Completed
                    || t.states[k] == StepState::Skipped)
        }),
    decreases pending_count(steps, s.states, steps.len()),
{
    lemma_steps_are_sorted_out(steps, edges, guards, s.states);
    match scan_steps(steps, edges, guards, s.states, steps.len()) {
        Err(_) => {},
        Ok((ready, skip)) => if ready.len() == 0 && skip.len() > 0 {
            let mid = skipped(s, skip);
            lemma_scan_skip(steps, edges, guards, s.states, steps.len());
            lemma_skipped_states(s, skip);
            assert(skip.contains(skip[0]));
            lemma_pending_drops(steps, s.states, mid.states, skip[0]);
            assert(mid.states.dom() =~= s.states.dom()) by {
                assert forall|k: Seq<char>| skip.contains(k) implies s.states.contains_key(k) by {
                    let i = choose|i: int| 0 <= i < skip.len() && skip[i] == k;
                    assert(scan_steps(steps, edges, guards, s.states, steps.len())->Ok_0.1[i] == k);
                }
            }
            lemma_skips_spread(mid, steps, edges, guards);
            let (t, r) = ready_after_skips(s, steps, edges, guards);
            assert forall|k: Seq<char>| #[trigger] t.states[k] == s.states[k] || {
                &&& s.states[k] == StepState::Pending
                &&& t.states[k] == StepState::Skipped
                &&& readiness(edges, guards, t.states, k) == Ok::<StepReadiness, Seq<char>>(
                    StepReadiness::Skip,
                )
            } by {
                let x = mid.states[k];
                if t.states[k] == mid.states[k] && t.states[k] != s.states[k] {
                    assert(skip.contains(k));
                    let i = choose|i: int| 0 <= i < skip.len() && skip[i] == k;
                    assert(scan_steps(steps, edges, guards, s.states, steps.len())->Ok_0.1[i] == k);
                    lemma_listed_comes_out(
                        steps,
                        edges,
                        guards,
                        s.states,
                        StepReadiness::Skip,
                        k,
                    );
                    assert forall|j: Seq<char>| #[trigger]
                        t.states[j] == s.states[j] || (s.states[j] == StepState::Pending
                            && t.states[j] == StepState::Skipped) by {
                        let y = mid.states[j];
                        lemma_pending_listed(steps, edges, guards, s.states, skip, j);
                    }
                    lemma_skip_stays(edges, guards, s.states, t.states, k);
                } else if t.states[k] != mid.states[k] {
                    assert(mid.states[k] == StepState::Pending);
                }
            }
            lemma_skipped_completed(s, skip);
            let x = t.states[skip[0]];
            assert(mid.states[skip[0]] == StepState::Skipped);
            assert(t.states[skip[0]] != s.states[skip[0]]);
        },
    }
}

/// What is listed to be skipped is pending.
proof fn lemma_pending_listed(
    steps: Seq<PlanStep>,
    edges: Seq<PlanEdge>,
    guards: Seq<Option<Evaluated>>,
    states: Map<Seq<char>, StepState>,
    skip: Seq<Seq<char>>,
    j: Seq<char>,
)
    requires
        scan_steps(steps, edges, guards, states, steps.len()) matches Ok(x) && x.1 == skip,
    ensures
        skip.contains(j) ==> states[j] == StepState::Pending,
{
    lemma_scan_skip(steps, edges, guards, states, steps.len());
    if skip.contains(j) {
        let i = choose|i: int| 0 <= i < skip.len() && skip[i] == j;
        assert(scan_steps(steps, edges, guards, states, steps.len())->Ok_0.1[i] == j);
    }
}

/// What is listed comes out so.
proof fn lemma_listed_comes_out(
    steps: Seq<PlanStep>,
    edges: Seq<PlanEdge>,
    guards: Seq<Option<Evaluated>>,
    states: Map<Seq<char>, StepState>,
    what: StepReadiness,
    id: Seq<char>,
)
    requires
        coming_out(steps, edges, guards, states, what).contains(id),
    ensures
        comes_out(edges, guards, states, what, id),
{
    let p = |x: Seq<char>| comes_out(edges, guards, states, what, x);
    let out = coming_out(steps, edges, guards, states, what);
    let i = choose|i: int| 0 <= i < out.len() && out[i] == id;
    step_ids(steps).lemma_filter_pred(p, i);
}

/// Skipping the last steps that were left ends the run.
proof fn lemma_skipped_completed(s: PlanState, ids: Seq<Seq<char>>)
    requires
        ids.len() > 0,
    ensures
        s.completed ==> skipped(s, ids).completed,
        (forall|k: Seq<char>| #[trigger]
            skipped(s, ids).states.contains_key(k) ==> skipped(s, ids).states[k]
                == StepState::Completed || skipped(s, ids).states[k] == StepState::Skipped)
            ==> skipped(s, ids).completed,
        skipped(s, ids).completed && !s.completed ==> forall|k: Seq<char>| #[trigger]
            skipped(s, ids).states.contains_key(k) ==> skipped(s, ids).states[k]
                == StepState::Completed || skipped(s, ids).states[k] == StepState::Skipped,
    decreases ids.len(),
{
    let front = ids.drop_last();
    if front.len() > 0 {
        lemma_skipped_completed(s, front);
    } else {
        assert(skipped(s, front) == s);
    }
}

} // verus!
