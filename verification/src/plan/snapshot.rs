//! Starting a run, and saving and restoring it.
use vstd::prelude::*;

use crate::bytes::bytes_lt;
use crate::capability::CapGrantResolution;
use crate::cbor::{clone_bytes, CborTree, CborValue};
use crate::error::{is_manifest_error, KernelError};
use crate::names::{deep, folded, lemma_deep_eq, lemma_folded, NameMap};
use crate::types::SchemaIndex;
use crate::value::{ExprValue, ValueTree};

use super::asked::{env_at, eval_asked};
use super::readiness::{evaluated, Evaluated};
use super::tick::PlanEvaluator;
use super::waits::{event_candidate, event_judged, lemma_wait_insert_last,
    lemma_wait_insert_ordered, wait_insert};
use super::{opt_tree, wait_views, waits_ordered, DefPlan, DomainEvent, EventWait, ExprEnv,
    PlanContext, PlanInstance, PlanState, PlanStep, ReceiptWait, StepState};

verus! {

/// The model of a payload in normal form.
pub open spec fn payload_tree(normalized: Result<CborValue, String>) -> Result<CborTree, Seq<char>> {
    match normalized {
        Ok(c) => Ok(c@),
        Err(e) => Err(e@),
    }
}

/// Where a run stands after an event, and whether the event was taken. `passes` is what the host
/// says of the wait's predicate, where the wait has one.
pub open spec fn event_outcome(
    p: &PlanInstance,
    schema: Seq<char>,
    payload: Result<CborTree, Seq<char>>,
    passes: Evaluated,
) -> (PlanState, Result<bool, Seq<char>>) {
    match event_candidate(p, schema, payload) {
        Err(t) => (p@, Err(t)),
        Ok(None) => (p@, Ok(false)),
        Ok(Some(v)) => event_judged(
            p@,
            v,
            if p@.event_wait->0.where_clause is Some {
                Some(evaluated(passes))
            } else {
                None
            },
        ),
    }
}

/// Whether the evaluator says so of the clause of the step that waits for an event, with the event
/// at hand. It is asked only of an event that the step waits for.
pub open spec fn clause_asked<E: PlanEvaluator>(
    mind: E,
    p: &PlanInstance,
    schema: Seq<char>,
    payload: Result<CborTree, Seq<char>>,
    passes: Evaluated,
) -> bool {
    match event_candidate(p, schema, payload) {
        Ok(Some(v)) => p@.event_wait->0.where_clause is Some ==> eval_asked::<E>(
            mind,
            p@.event_wait->0.where_clause->0,
            PlanState { event: Some(v), ..p@ },
            passes,
        ),
        _ => true,
    }
}

/// Whether a run and a result are the outcome of an event.
pub open spec fn event_handed(
    outcome: (PlanState, Result<bool, Seq<char>>),
    s: PlanState,
    r: Result<bool, KernelError>,
) -> bool {
    &&& s == outcome.0
    &&& match (r, outcome.1) {
        (Ok(a), Ok(b)) => a == b,
        (Err(e), Err(t)) => is_manifest_error(e, t),
        _ => false,
    }
}

/// A run as it is saved.
#[derive(Debug)]
pub struct PlanInstanceSnapshot {
    pub id: u64,
    pub name: String,
    pub env: ExprEnv,
    pub completed: bool,
    pub context: Option<PlanContext>,
    pub effect_handles: Vec<(String, [u8; 32])>,
    pub receipt_waits: Vec<ReceiptWait>,
    pub receipt_values: Vec<(String, ExprValue)>,
    pub event_wait: Option<EventWait>,
    pub event_value: Option<ExprValue>,
    pub correlation_id: Option<Vec<u8>>,
    pub step_states: Vec<(String, StepState)>,
}

/// The states of the first `n` steps of a plan before it runs.
pub open spec fn initial_states(steps: Seq<PlanStep>, n: nat) -> Map<Seq<char>, StepState>
    decreases n,
{
    if n == 0 || n > steps.len() {
        Map::empty()
    } else {
        initial_states(steps, (n - 1) as nat).insert(steps[n - 1].id@, StepState::Pending)
    }
}

/// A run that has not begun, on this input and with these variables.
pub open spec fn initial_state(
    steps: Seq<PlanStep>,
    input: ValueTree,
    vars: Map<Seq<char>, ValueTree>,
) -> PlanState {
    PlanState {
        completed: false,
        input,
        vars,
        steps: Map::empty(),
        event: None,
        handles: Map::empty(),
        waits: Seq::empty(),
        receipts: Map::empty(),
        event_wait: None,
        event_value: None,
        states: initial_states(steps, steps.len()),
    }
}

/// The waits of a list of waits put into hash order.
pub open spec fn folded_waits(waits: Seq<(Seq<u8>, Seq<char>)>) -> Seq<(Seq<u8>, Seq<char>)>
    decreases waits.len(),
{
    if waits.len() == 0 {
        Seq::empty()
    } else {
        wait_insert(folded_waits(waits.drop_last()), waits.last().0, waits.last().1)
    }
}

/// Waits in hash order stay as they are.
pub proof fn lemma_folded_waits(waits: Seq<(Seq<u8>, Seq<char>)>)
    requires
        waits_ordered(waits),
    ensures
        folded_waits(waits) == waits,
    decreases waits.len(),
{
    if waits.len() > 0 {
        let front = waits.drop_last();
        assert(waits_ordered(front));
        lemma_folded_waits(front);
        assert forall|i: int| 0 <= i < front.len() implies bytes_lt(
            (#[trigger] front[i]).0,
            waits.last().0,
        ) by {
            assert(front[i] == waits[i]);
            assert(waits.last() == waits[waits.len() - 1]);
        }
        lemma_wait_insert_last(front, waits.last().0, waits.last().1);
        assert(front.push((waits.last().0, waits.last().1)) =~= waits);
    } else {
        assert(folded_waits(waits) =~= waits);
    }
}

/// Waits are put into hash order.
pub proof fn lemma_folded_waits_ordered(waits: Seq<(Seq<u8>, Seq<char>)>)
    ensures
        waits_ordered(folded_waits(waits)),
    decreases waits.len(),
{
    if waits.len() > 0 {
        lemma_folded_waits_ordered(waits.drop_last());
        lemma_wait_insert_ordered(
            folded_waits(waits.drop_last()),
            waits.last().0,
            waits.last().1,
        );
    }
}

/// The run that a snapshot restores.
pub open spec fn restored(snap: PlanInstanceSnapshot) -> PlanState {
    PlanState {
        completed: snap.completed,
        input: snap.env.plan_input@,
        vars: deep(snap.env.vars.map()),
        steps: deep(snap.env.steps.map()),
        event: opt_tree(snap.env.current_event),
        handles: deep(folded(snap.effect_handles@)),
        waits: folded_waits(wait_views(snap.receipt_waits@)),
        receipts: deep(folded(snap.receipt_values@)),
        event_wait: match snap.event_wait {
            Some(w) => Some(w@),
            None => None,
        },
        event_value: opt_tree(snap.event_value),
        states: folded(snap.step_states@),
    }
}

/// Copies of the entries of a map of values.
fn copy_entries(m: &NameMap<ExprValue>) -> (r: Vec<(String, ExprValue)>)
    ensures
        deep(folded(r@)) == deep(m.map()),
{
    let entries = m.entries();
    let mut out: Vec<(String, ExprValue)> = Vec::new();
    let mut i: usize = 0;
    while i < entries.len()
        invariant
            i == out@.len(),
            i <= entries@.len(),
            forall|k: int|
                0 <= k < i ==> (#[trigger] out@[k]).0@ == entries@[k].0@ && out@[k].1@
                    == entries@[k].1@,
        decreases entries@.len() - i,
    {
        out.push((entries[i].0.clone(), entries[i].1.copied()));
        i += 1;
    }
    proof {
        lemma_deep_eq(out@, entries@);
        lemma_folded(entries@);
    }
    out
}

/// A copy of a map of values.
fn copy_map(m: &NameMap<ExprValue>) -> (r: NameMap<ExprValue>)
    ensures
        deep(r.map()) == deep(m.map()),
{
    NameMap::from_list(copy_entries(m))
}

fn copy_option(v: &Option<ExprValue>) -> (r: Option<ExprValue>)
    ensures
        opt_tree(r) == opt_tree(*v),
{
    match v {
        Some(x) => Some(x.copied()),
        None => None,
    }
}

impl ExprEnv {
    /// A copy of the environment.
    pub fn copied(&self) -> (r: ExprEnv)
        ensures
            r.plan_input@ == self.plan_input@,
            deep(r.vars.map()) == deep(self.vars.map()),
            deep(r.steps.map()) == deep(self.steps.map()),
            opt_tree(r.current_event) == opt_tree(self.current_event),
    {
        ExprEnv {
            plan_input: self.plan_input.copied(),
            vars: copy_map(&self.vars),
            steps: copy_map(&self.steps),
            current_event: copy_option(&self.current_event),
        }
    }
}

impl PlanInstance {
    /// A run of `plan` on `input` that has not begun. A correlated run knows its correlation value
    /// as the variable `correlation_id`.
    pub fn new(
        id: u64,
        plan: DefPlan,
        input: ExprValue,
        schema_index: SchemaIndex,
        correlation: Option<(Vec<u8>, ExprValue)>,
        cap_handles: NameMap<CapGrantResolution>,
    ) -> (r: Self)
        ensures
            r.wf(),
            r.id == id,
            r.name@ == plan.name@,
            r.plan == plan,
            r.context is None,
            r.schema_index == schema_index,
            r.cap_handles == cap_handles,
            r.correlation_id == match correlation {
                Some(c) => Some(c.0),
                None => None,
            },
            r@ == initial_state(
                plan.steps@,
                input@,
                match correlation {
                    Some(c) => Map::<Seq<char>, ValueTree>::empty().insert(
                        "correlation_id"@,
                        c.1@,
                    ),
                    None => Map::empty(),
                },
            ),
    {
        let mut states: NameMap<StepState> = NameMap::new();
        let mut i: usize = 0;
        while i < plan.steps.len()
            invariant
                i <= plan.steps@.len(),
                states.map() == initial_states(plan.steps@, i as nat),
                forall|k: int|
                    0 <= k < i ==> states.map().contains_key((#[trigger] plan.steps@[k]).id@),
            decreases plan.steps@.len() - i,
        {
            states.insert(plan.steps[i].id.clone(), StepState::Pending);
            i += 1;
        }
        let mut vars: NameMap<ExprValue> = NameMap::new();
        let ghost start = deep(vars.map());
        assert(start =~= Map::empty());
        let correlation_id = match correlation {
            Some((bytes, value)) => {
                vars.insert("correlation_id".to_owned(), value);
                assert(deep(vars.map()) =~= start.insert("correlation_id"@, value@));
                Some(bytes)
            },
            None => None,
        };
        let name = plan.name.clone();
        let r = PlanInstance {
            id,
            name,
            plan,
            env: ExprEnv { plan_input: input, vars, steps: NameMap::new(), current_event: None },
            completed: false,
            context: None,
            effect_handles: NameMap::new(),
            receipt_waits: Vec::new(),
            receipt_values: NameMap::new(),
            event_wait: None,
            event_value: None,
            correlation_id,
            step_states: states,
            schema_index,
            cap_handles,
        };
        assert(r@.steps =~= Map::empty());
        assert(r@.handles =~= Map::empty());
        assert(r@.receipts =~= Map::empty());
        assert(r@.waits =~= Seq::empty());
        r
    }

    /// What is needed to restore the run.
    pub fn snapshot(&self) -> (r: PlanInstanceSnapshot)
        requires
            self.wf(),
        ensures
            r.id == self.id,
            r.name@ == self.name@,
            r.context == self.context,
            match (r.correlation_id, self.correlation_id) {
                (Some(a), Some(b)) => a@ == b@,
                (None, None) => true,
                _ => false,
            },
            restored(r) == self@,
    {
        let handles = self.effect_handles.entries();
        let mut effect_handles: Vec<(String, [u8; 32])> = Vec::new();
        let mut i: usize = 0;
        while i < handles.len()
            invariant
                i == effect_handles@.len(),
                i <= handles@.len(),
                forall|k: int|
                    0 <= k < i ==> (#[trigger] effect_handles@[k]).0@ == handles@[k].0@
                        && effect_handles@[k].1@ == handles@[k].1@,
            decreases handles@.len() - i,
        {
            effect_handles.push((handles[i].0.clone(), handles[i].1));
            i += 1;
        }
        proof {
            lemma_deep_eq(effect_handles@, handles@);
            lemma_folded(handles@);
        }
        let mut receipt_waits: Vec<ReceiptWait> = Vec::new();
        let mut i: usize = 0;
        while i < self.receipt_waits.len()
            invariant
                i == receipt_waits@.len(),
                i <= self.receipt_waits@.len(),
                forall|k: int|
                    0 <= k < i ==> (#[trigger] receipt_waits@[k]).step_id@
                        == self.receipt_waits@[k].step_id@ && receipt_waits@[k].intent_hash@
                        == self.receipt_waits@[k].intent_hash@,
            decreases self.receipt_waits@.len() - i,
        {
            receipt_waits.push(
                ReceiptWait {
                    step_id: self.receipt_waits[i].step_id.clone(),
                    intent_hash: self.receipt_waits[i].intent_hash,
                },
            );
            i += 1;
        }
        proof {
            assert(wait_views(receipt_waits@) =~= self@.waits);
            lemma_folded_waits(self@.waits);
        }
        let states = self.step_states.entries();
        let mut step_states: Vec<(String, StepState)> = Vec::new();
        let mut i: usize = 0;
        while i < states.len()
            invariant
                i == step_states@.len(),
                i <= states@.len(),
                forall|k: int| 0 <= k < i ==> #[trigger] step_states@[k] == states@[k],
            decreases states@.len() - i,
        {
            step_states.push((states[i].0.clone(), states[i].1));
            i += 1;
        }
        proof {
            assert(step_states@ =~= states@);
            lemma_folded(states@);
        }
        let event_wait = match &self.event_wait {
            Some(w) => Some(
                EventWait {
                    step_id: w.step_id.clone(),
                    schema: w.schema.clone(),
                    where_clause: match &w.where_clause {
                        Some(e) => Some(e.clone()),
                        None => None,
                    },
                },
            ),
            None => None,
        };
        let context = match &self.context {
            Some(c) => Some(c.clone()),
            None => None,
        };
        let correlation_id = match &self.correlation_id {
            Some(b) => Some(clone_bytes(b)),
            None => None,
        };
        let r = PlanInstanceSnapshot {
            id: self.id,
            name: self.name.clone(),
            env: self.env.copied(),
            completed: self.completed,
            context,
            effect_handles,
            receipt_waits,
            receipt_values: copy_entries(&self.receipt_values),
            event_wait,
            event_value: copy_option(&self.event_value),
            correlation_id,
            step_states,
        };
        assert(restored(r) =~= self@);
        r
    }

    /// The run that a snapshot saved.
    pub fn from_snapshot(
        snapshot: PlanInstanceSnapshot,
        plan: DefPlan,
        schema_index: SchemaIndex,
        cap_handles: NameMap<CapGrantResolution>,
    ) -> (r: Self)
        ensures
            r.id == snapshot.id,
            r.name@ == plan.name@,
            r.plan == plan,
            r.context == snapshot.context,
            r.correlation_id == snapshot.correlation_id,
            r.schema_index == schema_index,
            r.cap_handles == cap_handles,
            r@ == restored(snapshot),
            waits_ordered(r@.waits),
    {
        let mut r = PlanInstance::new(
            snapshot.id,
            plan,
            ExprValue::Unit,
            schema_index,
            None,
            cap_handles,
        );
        let ghost want = restored(snapshot);
        r.env = snapshot.env;
        r.completed = snapshot.completed;
        r.context = snapshot.context;
        r.effect_handles = NameMap::from_list(snapshot.effect_handles);
        r.receipt_values = NameMap::from_list(snapshot.receipt_values);
        r.event_wait = snapshot.event_wait;
        r.event_value = snapshot.event_value;
        r.correlation_id = snapshot.correlation_id;
        r.step_states = NameMap::from_list(snapshot.step_states);
        let saved = snapshot.receipt_waits;
        let ghost all = wait_views(saved@);
        let ghost base = r;
        let mut i: usize = 0;
        assert(all.take(0) =~= Seq::empty());
        assert(r@.waits =~= Seq::empty());
        while i < saved.len()
            invariant
                i <= saved@.len(),
                all == wait_views(saved@),
                r.same_fixed(&base),
                r@ == (PlanState { waits: folded_waits(all.take(i as int)), ..base@ }),
            decreases saved@.len() - i,
        {
            assert(all.take(i + 1).drop_last() =~= all.take(i as int));
            r.insert_wait(saved[i].step_id.as_str(), saved[i].intent_hash);
            i += 1;
        }
        assert(all.take(i as int) =~= all);
        proof {
            lemma_folded_waits_ordered(all);
        }
        assert(r@ =~= want);
        r
    }

    pub fn set_context(&mut self, context: PlanContext)
        ensures
            final(self)@ == old(self)@,
            final(self).context == Some(context),
            final(self).id == old(self).id,
            final(self).name == old(self).name,
            final(self).plan == old(self).plan,
            final(self).correlation_id == old(self).correlation_id,
            final(self).schema_index == old(self).schema_index,
            final(self).cap_handles == old(self).cap_handles,
    {
        self.context = Some(context);
    }

    pub fn context(&self) -> (r: Option<&PlanContext>)
        ensures
            match (r, self.context) {
                (Some(a), Some(b)) => *a == b,
                (None, None) => true,
                _ => false,
            },
    {
        match &self.context {
            Some(c) => Some(c),
            None => None,
        }
    }

    /// Hands an event to the step that waits for one, and says whether it was taken. `normalized`
    /// is the event's payload in normal form under the schema that is waited for. An event that no
    /// step waits for leaves the run alone.
    pub fn deliver_event<E: PlanEvaluator>(
        &mut self,
        event: &DomainEvent,
        normalized: Result<CborValue, String>,
        evaluator: &E,
    ) -> (r: Result<bool, KernelError>)
        requires
            old(self).event_settles(),
        ensures
            final(self).same_fixed(old(self)),
            old(self).wf() ==> final(self).wf(),
            exists|passes: Evaluated|
                clause_asked::<E>(
                    *evaluator,
                    old(self),
                    event.schema@,
                    payload_tree(normalized),
                    passes,
                ) && #[trigger] event_handed(
                    event_outcome(old(self), event.schema@, payload_tree(normalized), passes),
                    final(self)@,
                    r,
                ),
    {
        let ghost payload = payload_tree(normalized);
        let ghost unasked: Evaluated = Ok(ExprValue::Unit);
        let value = match self.read_event(event, normalized) {
            Err(e) => {
                assert(event_handed(
                    event_outcome(old(self), event.schema@, payload, unasked),
                    self@,
                    Err(e),
                ));
                return Err(e);
            },
            Ok(None) => {
                assert(event_handed(
                    event_outcome(old(self), event.schema@, payload, unasked),
                    self@,
                    Ok(false),
                ));
                return Ok(false);
            },
            Ok(Some(v)) => v,
        };
        let clause = match &self.event_wait {
            Some(w) => match &w.where_clause {
                Some(e) => Some(e.clone()),
                None => None,
            },
            None => None,
        };
        let passes: Option<Evaluated> = match clause {
            None => None,
            Some(expr) => {
                let prev = self.env.current_event.take();
                self.env.current_event = Some(value.copied());
                let env = &self.env;
                let e = evaluator.eval(&expr, env);
                proof {
                    let at = PlanState { event: Some(value@), ..old(self)@ };
                    assert(env_at(*env, at));
                    assert(eval_asked::<E>(*evaluator, expr, at, e));
                }
                self.env.current_event = prev;
                Some(e)
            },
        };
        assert(self@ =~= old(self)@);
        let ghost told: Evaluated = if passes is Some {
            passes->0
        } else {
            unasked
        };
        let r = self.judge_event(value, passes);
        assert(event_handed(
            event_outcome(old(self), event.schema@, payload, told),
            self@,
            r,
        ));
        r
    }
}

} // verus!
