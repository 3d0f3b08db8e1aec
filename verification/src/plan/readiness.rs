//! Which steps of a plan can run.
use vstd::prelude::*;

use crate::cbor_codec::{truth_of, value_to_bool};
use crate::error::{is_manifest_error, KernelError};
use crate::names::{lemma_entries_map, names_distinct};
use crate::text::{join2, str_eq};
use crate::value::{ExprValue, ValueTree};

use super::{all_final, is_final, marked, with_state, PlanEdge, PlanInstance, PlanState, PlanStep,
    StepState};

verus! {

/// What came of evaluating an expression: its value, or the text of the error.
pub type Evaluated = Result<ExprValue, String>;

/// The model of an evaluation.
pub open spec fn evaluated(e: Evaluated) -> Result<ValueTree, Seq<char>> {
    match e {
        Ok(v) => Ok(v@),
        Err(t) => Err(t@),
    }
}

/// Whether an edge is active once its first step has completed. `guard` is the evaluation of the
/// edge's guard.
pub open spec fn edge_active(edge: PlanEdge, guard: Option<Evaluated>) -> Result<bool, Seq<char>> {
    match edge.when {
        None => Ok(true),
        Some(_) => match guard {
            Some(e) => match evaluated(e) {
                Ok(v) => truth_of(v),
                Err(t) => Err("guard eval error: "@ + t),
            },
            None => Ok(false),
        },
    }
}

/// What the first `n` edges say of the step `id`: whether one is active, and whether one waits.
pub open spec fn scan_edges(
    edges: Seq<PlanEdge>,
    guards: Seq<Option<Evaluated>>,
    states: Map<Seq<char>, StepState>,
    id: Seq<char>,
    n: nat,
) -> Result<(bool, bool), Seq<char>>
    decreases n,
{
    if n == 0 || n > edges.len() {
        Ok((false, false))
    } else {
        let edge = edges[n - 1];
        match scan_edges(edges, guards, states, id, (n - 1) as nat) {
            Err(e) => Err(e),
            Ok((active, waiting)) => if edge.to@ != id {
                Ok((active, waiting))
            } else if states.contains_key(edge.from@) && states[edge.from@]
                == StepState::Completed {
                match edge_active(edge, guards[n - 1]) {
                    Err(e) => Err(e),
                    Ok(b) => Ok((active || b, waiting)),
                }
            } else if states.contains_key(edge.from@) && states[edge.from@]
                == StepState::Skipped {
                Ok((active, waiting))
            } else {
                Ok((active, true))
            },
        }
    }
}

#[derive(Clone, Copy, Debug, PartialEq, Eq, Structural)]
pub enum StepReadiness {
    Ready,
    Blocked,
    Skip,
}

/// Whether an edge leads to the step `id`.
pub open spec fn has_edge_to(edges: Seq<PlanEdge>, id: Seq<char>) -> bool {
    exists|i: int| 0 <= i < edges.len() && (#[trigger] edges[i]).to@ == id
}

/// Whether a pending step can run. One without edges to it can. One that still waits for a step
/// is blocked. Of the others, one with an active edge can run, and one without is skipped.
pub open spec fn readiness(
    edges: Seq<PlanEdge>,
    guards: Seq<Option<Evaluated>>,
    states: Map<Seq<char>, StepState>,
    id: Seq<char>,
) -> Result<StepReadiness, Seq<char>> {
    if !has_edge_to(edges, id) {
        Ok(StepReadiness::Ready)
    } else {
        match scan_edges(edges, guards, states, id, edges.len()) {
            Err(e) => Err(e),
            Ok((active, waiting)) => Ok(
                if waiting {
                    StepReadiness::Blocked
                } else if active {
                    StepReadiness::Ready
                } else {
                    StepReadiness::Skip
                },
            ),
        }
    }
}

/// Of the first `n` steps, the pending ones that can run and those to skip, in order.
pub open spec fn scan_steps(
    steps: Seq<PlanStep>,
    edges: Seq<PlanEdge>,
    guards: Seq<Option<Evaluated>>,
    states: Map<Seq<char>, StepState>,
    n: nat,
) -> Result<(Seq<Seq<char>>, Seq<Seq<char>>), Seq<char>>
    decreases n,
{
    if n == 0 || n > steps.len() {
        Ok((Seq::empty(), Seq::empty()))
    } else {
        let id = steps[n - 1].id@;
        match scan_steps(steps, edges, guards, states, (n - 1) as nat) {
            Err(e) => Err(e),
            Ok((ready, skip)) => if states[id] != StepState::Pending {
                Ok((ready, skip))
            } else {
                match readiness(edges, guards, states, id) {
                    Err(e) => Err(e),
                    Ok(StepReadiness::Ready) => Ok((ready.push(id), skip)),
                    Ok(StepReadiness::Skip) => Ok((ready, skip.push(id))),
                    Ok(StepReadiness::Blocked) => Ok((ready, skip)),
                }
            },
        }
    }
}

/// The run with the given steps skipped, in order.
pub open spec fn skipped(s: PlanState, ids: Seq<Seq<char>>) -> PlanState
    decreases ids.len(),
{
    if ids.len() == 0 {
        s
    } else {
        marked(skipped(s, ids.drop_last()), ids.last(), StepState::Skipped)
    }
}

/// The number of the first `n` steps that are pending.
pub open spec fn pending_count(
    steps: Seq<PlanStep>,
    states: Map<Seq<char>, StepState>,
    n: nat,
) -> nat
    decreases n,
{
    if n == 0 || n > steps.len() {
        0
    } else {
        pending_count(steps, states, (n - 1) as nat) + if states[steps[n - 1].id@]
            == StepState::Pending {
            1nat
        } else {
            0nat
        }
    }
}

/// Where the run stands once skips have spread as far as they go, and the steps that can run
/// there.
pub open spec fn ready_after_skips(
    s: PlanState,
    steps: Seq<PlanStep>,
    edges: Seq<PlanEdge>,
    guards: Seq<Option<Evaluated>>,
) -> (PlanState, Result<Seq<Seq<char>>, Seq<char>>)
    decreases pending_count(steps, s.states, steps.len()),
{
    match scan_steps(steps, edges, guards, s.states, steps.len()) {
        Err(e) => (s, Err(e)),
        Ok((ready, skip)) => if ready.len() > 0 || skip.len() == 0 {
            (s, Ok(ready))
        } else {
            proof {
                lemma_scan_skip(steps, edges, guards, s.states, steps.len());
                lemma_skipped_states(s, skip);
                lemma_pending_drops(steps, s.states, skipped(s, skip).states, skip[0]);
            }
            ready_after_skips(skipped(s, skip), steps, edges, guards)
        },
    }
}

/// What is to be skipped is pending, and is a step of the plan.
pub proof fn lemma_scan_skip(
    steps: Seq<PlanStep>,
    edges: Seq<PlanEdge>,
    guards: Seq<Option<Evaluated>>,
    states: Map<Seq<char>, StepState>,
    n: nat,
)
    requires
        n <= steps.len(),
        scan_steps(steps, edges, guards, states, n) is Ok,
    ensures
        forall|i: int|
            #![trigger scan_steps(steps, edges, guards, states, n)->Ok_0.1[i]]
            0 <= i < scan_steps(steps, edges, guards, states, n)->Ok_0.1.len() ==> {
                let id = scan_steps(steps, edges, guards, states, n)->Ok_0.1[i];
                &&& states[id] == StepState::Pending
                &&& exists|k: int| 0 <= k < n && (#[trigger] steps[k]).id@ == id
            },
        forall|i: int|
            #![trigger scan_steps(steps, edges, guards, states, n)->Ok_0.0[i]]
            0 <= i < scan_steps(steps, edges, guards, states, n)->Ok_0.0.len() ==> {
                let id = scan_steps(steps, edges, guards, states, n)->Ok_0.0[i];
                &&& states[id] == StepState::Pending
                &&& exists|k: int| 0 <= k < n && (#[trigger] steps[k]).id@ == id
            },
    decreases n,
{
    if n > 0 {
        lemma_scan_skip(steps, edges, guards, states, (n - 1) as nat);
        let before = scan_steps(steps, edges, guards, states, (n - 1) as nat)->Ok_0;
        let after = scan_steps(steps, edges, guards, states, n)->Ok_0;
        let id = steps[n - 1].id@;
        assert forall|i: int| 0 <= i < after.1.len() implies {
            let x = #[trigger] after.1[i];
            &&& states[x] == StepState::Pending
            &&& exists|k: int| 0 <= k < n && (#[trigger] steps[k]).id@ == x
        } by {
            if i < before.1.len() {
                assert(after.1[i] == before.1[i]);
            } else {
                assert(after.1[i] == id);
                assert(steps[n - 1].id@ == id);
            }
        }
        assert forall|i: int| 0 <= i < after.0.len() implies {
            let x = #[trigger] after.0[i];
            &&& states[x] == StepState::Pending
            &&& exists|k: int| 0 <= k < n && (#[trigger] steps[k]).id@ == x
        } by {
            if i < before.0.len() {
                assert(after.0[i] == before.0[i]);
            } else {
                assert(after.0[i] == id);
                assert(steps[n - 1].id@ == id);
            }
        }
    }
}

/// Skipping changes the states of the skipped steps alone.
pub proof fn lemma_skipped_states(s: PlanState, ids: Seq<Seq<char>>)
    ensures
        forall|k: Seq<char>| #[trigger]
            skipped(s, ids).states[k] == (if ids.contains(k) {
                StepState::Skipped
            } else {
                s.states[k]
            }),
        forall|k: Seq<char>| #[trigger]
            skipped(s, ids).states.contains_key(k) <==> (s.states.contains_key(k) || ids.contains(
                k,
            )),
        skipped(s, ids) == (PlanState {
            states: skipped(s, ids).states,
            completed: skipped(s, ids).completed,
            ..s
        }),
    decreases ids.len(),
{
    if ids.len() > 0 {
        let front = ids.drop_last();
        lemma_skipped_states(s, front);
        assert forall|k: Seq<char>| ids.contains(k) <==> (#[trigger] front.contains(k) || k
            == ids.last()) by {
            if ids.contains(k) {
                let i = choose|i: int| 0 <= i < ids.len() && ids[i] == k;
                if i < front.len() {
                    assert(front[i] == k);
                }
            }
            if front.contains(k) {
                let i = choose|i: int| 0 <= i < front.len() && front[i] == k;
                assert(ids[i] == k);
            }
            if k == ids.last() {
                assert(ids[ids.len() - 1] == k);
            }
        }
    }
}

/// Fewer steps are pending once a pending one has left that state and none has entered it.
pub proof fn lemma_pending_drops(
    steps: Seq<PlanStep>,
    before: Map<Seq<char>, StepState>,
    after: Map<Seq<char>, StepState>,
    id: Seq<char>,
)
    requires
        exists|k: int| 0 <= k < steps.len() && (#[trigger] steps[k]).id@ == id,
        before[id] == StepState::Pending,
        after[id] != StepState::Pending,
        forall|k: Seq<char>| #[trigger]
            after[k] == StepState::Pending ==> before[k] == StepState::Pending,
    ensures
        pending_count(steps, after, steps.len()) < pending_count(steps, before, steps.len()),
{
    let k = choose|k: int| 0 <= k < steps.len() && (#[trigger] steps[k]).id@ == id;
    lemma_pending_le(steps, before, after, steps.len());
    lemma_pending_lt(steps, before, after, k, steps.len());
}

proof fn lemma_pending_le(
    steps: Seq<PlanStep>,
    before: Map<Seq<char>, StepState>,
    after: Map<Seq<char>, StepState>,
    n: nat,
)
    requires
        n <= steps.len(),
        forall|k: Seq<char>| #[trigger]
            after[k] == StepState::Pending ==> before[k] == StepState::Pending,
    ensures
        pending_count(steps, after, n) <= pending_count(steps, before, n),
    decreases n,
{
    if n > 0 {
        lemma_pending_le(steps, before, after, (n - 1) as nat);
    }
}

proof fn lemma_pending_lt(
    steps: Seq<PlanStep>,
    before: Map<Seq<char>, StepState>,
    after: Map<Seq<char>, StepState>,
    k: int,
    n: nat,
)
    requires
        0 <= k < n <= steps.len(),
        before[steps[k].id@] == StepState::Pending,
        after[steps[k].id@] != StepState::Pending,
        forall|j: Seq<char>| #[trigger]
            after[j] == StepState::Pending ==> before[j] == StepState::Pending,
    ensures
        pending_count(steps, after, n) < pending_count(steps, before, n),
    decreases n,
{
    if k == n - 1 {
        lemma_pending_le(steps, before, after, (n - 1) as nat);
    } else {
        lemma_pending_lt(steps, before, after, k, (n - 1) as nat);
    }
}

/// The models of a list of step ids.
pub open spec fn ids_view(ids: Seq<String>) -> Seq<Seq<char>> {
    Seq::new(ids.len(), |i: int| ids[i]@)
}

impl PlanInstance {
    /// The guard of every edge that leads from a completed step to a pending one has been
    /// evaluated.
    pub open spec fn guards_known(&self, guards: Seq<Option<Evaluated>>) -> bool {
        &&& guards.len() == self.plan.edges@.len()
        &&& forall|i: int|
            0 <= i < guards.len() && self.needs_guard(i) ==> (#[trigger] guards[i]) is Some
    }

    /// The edge at `i` has a guard that decides something now.
    pub open spec fn needs_guard(&self, i: int) -> bool {
        let edge = self.plan.edges@[i];
        &&& edge.when is Some
        &&& self@.states.contains_key(edge.from@)
        &&& self@.states[edge.from@] == StepState::Completed
        &&& self@.states.contains_key(edge.to@)
        &&& self@.states[edge.to@] == StepState::Pending
    }

    /// Sets the state of a step.
    pub fn set_state(&mut self, step_id: &str, state: StepState)
        ensures
            final(self)@ == with_state(old(self)@, step_id@, state),
            final(self).same_fixed(old(self)),
            old(self).wf() ==> final(self).wf(),
    {
        self.step_states.insert(step_id.to_owned(), state);
    }

    /// Whether every step has come to its end.
    pub fn all_steps_completed(&self) -> (r: bool)
        ensures
            r == all_final(self@.states),
    {
        let entries = self.step_states.entries();
        proof {
            lemma_entries_map(entries@);
        }
        let mut i: usize = 0;
        while i < entries.len()
            invariant
                i <= entries@.len(),
                entries@ == self.step_states.list(),
                names_distinct(entries@),
                forall|k: int| 0 <= k < i ==> is_final((#[trigger] entries@[k]).1),
            decreases entries@.len() - i,
        {
            match entries[i].1 {
                StepState::Completed => {},
                StepState::Skipped => {},
                _ => {
                    proof {
                        let e = entries@[i as int];
                        lemma_entries_map_of(self, i as int);
                        assert(self@.states.contains_key(e.0@));
                    }
                    return false;
                },
            }
            i += 1;
        }
        assert forall|k: Seq<char>| #[trigger] self@.states.contains_key(k) implies is_final(
            self@.states[k],
        ) by {
            let j = choose|j: int| 0 <= j < entries@.len() && (#[trigger] entries@[j]).0@ == k;
            assert(entries@[j].0@ == k);
        }
        true
    }

    /// Brings a step to its end; the last one ends the run.
    fn mark(&mut self, step_id: &str, state: StepState)
        ensures
            final(self)@ == marked(old(self)@, step_id@, state),
            final(self).same_fixed(old(self)),
            old(self).wf() ==> final(self).wf(),
    {
        self.set_state(step_id, state);
        if self.all_steps_completed() {
            self.completed = true;
        }
    }

    pub fn mark_completed(&mut self, step_id: &str)
        ensures
            final(self)@ == marked(old(self)@, step_id@, StepState::Completed),
            final(self).same_fixed(old(self)),
            old(self).wf() ==> final(self).wf(),
    {
        self.mark(step_id, StepState::Completed);
    }

    pub fn mark_skipped(&mut self, step_id: &str)
        ensures
            final(self)@ == marked(old(self)@, step_id@, StepState::Skipped),
            final(self).same_fixed(old(self)),
            old(self).wf() ==> final(self).wf(),
    {
        self.mark(step_id, StepState::Skipped);
    }

    /// Whether a pending step can run.
    pub fn step_readiness(&self, step_id: &str, guards: &Vec<Option<Evaluated>>) -> (r: Result<
        StepReadiness,
        KernelError,
    >)
        requires
            guards@.len() == self.plan.edges@.len(),
        ensures
            match (r, readiness(self.plan.edges@, guards@, self@.states, step_id@)) {
                (Ok(x), Ok(y)) => x == y,
                (Err(e), Err(t)) => is_manifest_error(e, t),
                _ => false,
            },
    {
        let edges = &self.plan.edges;
        let mut any: bool = false;
        let mut active: bool = false;
        let mut waiting: bool = false;
        let mut i: usize = 0;
        while i < edges.len()
            invariant
                i <= edges@.len(),
                edges@ == self.plan.edges@,
                guards@.len() == edges@.len(),
                any <==> (exists|k: int| 0 <= k < i && (#[trigger] edges@[k]).to@ == step_id@),
                scan_edges(edges@, guards@, self@.states, step_id@, i as nat) == Ok::<
                    (bool, bool),
                    Seq<char>,
                >((active, waiting)),
            decreases edges@.len() - i,
        {
            let edge = &edges[i];
            if str_eq(edge.to.as_str(), step_id) {
                any = true;
                match self.step_states.get(edge.from.as_str()) {
                    Some(StepState::Completed) => {
                        let holds = match &edge.when {
                            None => true,
                            Some(_) => match &guards[i] {
                                None => false,
                                Some(Err(e)) => {
                                    proof {
                                        lemma_scan_fault(
                                            edges@,
                                            guards@,
                                            self@.states,
                                            step_id@,
                                            (i + 1) as nat,
                                            edges@.len(),
                                        );
                                    }
                                    return Err(
                                        KernelError::Manifest(
                                            join2("guard eval error: ", e.as_str()),
                                        ),
                                    );
                                },
                                Some(Ok(v)) => match value_to_bool(v) {
                                    Ok(b) => b,
                                    Err(e) => {
                                        proof {
                                            lemma_scan_fault(
                                                edges@,
                                                guards@,
                                                self@.states,
                                                step_id@,
                                                (i + 1) as nat,
                                                edges@.len(),
                                            );
                                        }
                                        return Err(e);
                                    },
                                },
                            },
                        };
                        if holds {
                            active = true;
                        }
                    },
                    Some(StepState::Skipped) => {},
                    _ => {
                        waiting = true;
                    },
                }
            }
            i += 1;
        }
        if !any {
            return Ok(StepReadiness::Ready);
        }
        if waiting {
            Ok(StepReadiness::Blocked)
        } else if active {
            Ok(StepReadiness::Ready)
        } else {
            Ok(StepReadiness::Skip)
        }
    }

    /// The steps that can run, once skips have spread as far as they go.
    pub fn ready_steps(&mut self, guards: &Vec<Option<Evaluated>>) -> (r: Result<
        Vec<String>,
        KernelError,
    >)
        requires
            old(self).wf(),
            guards@.len() == old(self).plan.edges@.len(),
        ensures
            final(self).same_fixed(old(self)),
            final(self).wf(),
            ({
                let want = ready_after_skips(
                    old(self)@,
                    old(self).plan.steps@,
                    old(self).plan.edges@,
                    guards@,
                );
                &&& final(self)@ == want.0
                &&& match (r, want.1) {
                    (Ok(ids), Ok(w)) => ids_view(ids@) == w,
                    (Err(e), Err(t)) => is_manifest_error(e, t),
                    _ => false,
                }
            }),
    {
        let ghost goal = ready_after_skips(
            self@,
            self.plan.steps@,
            self.plan.edges@,
            guards@,
        );
        loop
            invariant
                self.wf(),
                self.same_fixed(old(self)),
                guards@.len() == self.plan.edges@.len(),
                goal == ready_after_skips(
                    old(self)@,
                    old(self).plan.steps@,
                    old(self).plan.edges@,
                    guards@,
                ),
                goal == ready_after_skips(self@, self.plan.steps@, self.plan.edges@, guards@),
            decreases pending_count(self.plan.steps@, self@.states, self.plan.steps@.len()),
        {
            let ghost states = self@.states;
            let ghost steps = self.plan.steps@;
            let ghost edges = self.plan.edges@;
            let mut ready: Vec<String> = Vec::new();
            let mut skip: Vec<String> = Vec::new();
            let mut i: usize = 0;
            assert(ids_view(ready@) =~= Seq::empty());
            assert(ids_view(skip@) =~= Seq::empty());
            while i < self.plan.steps.len()
                invariant
                    i <= self.plan.steps@.len(),
                    self.wf(),
                    steps == self.plan.steps@,
                    edges == self.plan.edges@,
                    states == self@.states,
                    guards@.len() == self.plan.edges@.len(),
                    self.same_fixed(old(self)),
                    goal == ready_after_skips(
                        old(self)@,
                        old(self).plan.steps@,
                        old(self).plan.edges@,
                        guards@,
                    ),
                    goal == ready_after_skips(self@, self.plan.steps@, self.plan.edges@, guards@),
                    scan_steps(steps, edges, guards@, states, i as nat) == Ok::<
                        (Seq<Seq<char>>, Seq<Seq<char>>),
                        Seq<char>,
                    >((ids_view(ready@), ids_view(skip@))),
                decreases self.plan.steps@.len() - i,
            {
                let id = self.plan.steps[i].id.clone();
                assert(self@.states.contains_key(steps[i as int].id@));
                let pending = match self.step_states.get(id.as_str()) {
                    Some(StepState::Pending) => true,
                    _ => false,
                };
                if pending {
                    match self.step_readiness(id.as_str(), guards) {
                        Err(e) => {
                            proof {
                                lemma_scan_steps_fault(
                                    steps,
                                    edges,
                                    guards@,
                                    states,
                                    (i + 1) as nat,
                                    steps.len(),
                                );
                            }
                            return Err(e);
                        },
                        Ok(StepReadiness::Ready) => {
                            let ghost before = ids_view(ready@);
                            ready.push(id);
                            assert(ids_view(ready@) =~= before.push(id@));
                        },
                        Ok(StepReadiness::Skip) => {
                            let ghost before = ids_view(skip@);
                            skip.push(id);
                            assert(ids_view(skip@) =~= before.push(id@));
                        },
                        Ok(StepReadiness::Blocked) => {},
                    }
                }
                i += 1;
            }
            if ready.len() > 0 {
                return Ok(ready);
            }
            if skip.len() == 0 {
                return Ok(ready);
            }
            let ghost s = self@;
            let ghost ids = ids_view(skip@);
            let mut j: usize = 0;
            assert(ids.take(0) =~= Seq::empty());
            while j < skip.len()
                invariant
                    j <= skip@.len(),
                    ids == ids_view(skip@),
                    self.wf(),
                    self.same_fixed(old(self)),
                    self@ == skipped(s, ids.take(j as int)),
                decreases skip@.len() - j,
            {
                assert(ids.take(j + 1).drop_last() =~= ids.take(j as int));
                self.mark_skipped(skip[j].as_str());
                j += 1;
            }
            assert(ids.take(j as int) =~= ids);
            proof {
                lemma_scan_skip(steps, edges, guards@, states, steps.len());
                lemma_skipped_states(s, ids);
                assert(ids.contains(ids[0]));
                lemma_pending_drops(steps, states, self@.states, ids[0]);
            }
        }
    }
}

proof fn lemma_entries_map_of(p: &PlanInstance, i: int)
    requires
        0 <= i < p.step_states.list().len(),
        names_distinct(p.step_states.list()),
    ensures
        p@.states.contains_key(p.step_states.list()[i].0@),
        p@.states[p.step_states.list()[i].0@] == p.step_states.list()[i].1,
{
    lemma_entries_map(p.step_states.list());
}

proof fn lemma_scan_fault(
    edges: Seq<PlanEdge>,
    guards: Seq<Option<Evaluated>>,
    states: Map<Seq<char>, StepState>,
    id: Seq<char>,
    k: nat,
    n: nat,
)
    requires
        k <= n <= edges.len(),
        scan_edges(edges, guards, states, id, k) is Err,
    ensures
        scan_edges(edges, guards, states, id, n) == scan_edges(edges, guards, states, id, k),
    decreases n,
{
    if k < n {
        lemma_scan_fault(edges, guards, states, id, k, (n - 1) as nat);
    }
}

proof fn lemma_scan_steps_fault(
    steps: Seq<PlanStep>,
    edges: Seq<PlanEdge>,
    guards: Seq<Option<Evaluated>>,
    states: Map<Seq<char>, StepState>,
    k: nat,
    n: nat,
)
    requires
        k <= n <= steps.len(),
        scan_steps(steps, edges, guards, states, k) is Err,
    ensures
        scan_steps(steps, edges, guards, states, n) == scan_steps(
            steps,
            edges,
            guards,
            states,
            k,
        ),
    decreases n,
{
    if k < n {
        lemma_scan_steps_fault(steps, edges, guards, states, k, (n - 1) as nat);
    }
}

} // verus!
