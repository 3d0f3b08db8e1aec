//! What each kind of step does to a run, given what its expressions evaluate to.
use vstd::prelude::*;

use crate::cbor_codec::{truth_of, value_to_bool};
use crate::codec::{lit_to_value, literal_to_value};
use crate::error::{is_manifest_error, KernelError};
use crate::text::{decimal, decimal_text, join2, join3};
use crate::value::{field_trees, lemma_value_tree, ExprValue, ValueTree};

use super::readiness::{evaluated, Evaluated};
use super::waits::opt_evaluated;
use super::{completed_with, with_state, EventWait, EventWaitView, Expr, ExprOrValue, PlanError,
    PlanInstance, PlanState, StepState};

verus! {

/// The value that stands where a plan wants one, or what is wrong. `value` is the evaluation of
/// the expression, where one stands there.
pub open spec fn wanted_value(
    what: ExprOrValue,
    value: Option<Result<ValueTree, Seq<char>>>,
    context: Seq<char>,
) -> Result<ValueTree, Seq<char>> {
    match what {
        ExprOrValue::Expr(_) => match value {
            Some(Ok(v)) => Ok(v),
            Some(Err(e)) => Err(context + ": "@ + e),
            None => Err(context + ": "@),
        },
        ExprOrValue::Literal(l) => match lit_to_value(l@) {
            Ok(v) => Ok(v),
            Err(e) => Err(context + ": "@ + e),
        },
        ExprOrValue::Json => Err("plan literals must be normalized before execution"@),
    }
}

/// The value that stands where a plan wants one.
pub fn eval_expr_or_value(
    what: &ExprOrValue,
    value: Option<Evaluated>,
    context: &str,
) -> (r: Result<ExprValue, KernelError>)
    requires
        what is Expr ==> value is Some,
    ensures
        match (r, wanted_value(*what, opt_evaluated(value), context@)) {
            (Ok(v), Ok(t)) => v@ == t,
            (Err(e), Err(t)) => is_manifest_error(e, t),
            _ => false,
        },
{
    match what {
        ExprOrValue::Expr(_) => match value {
            Some(Ok(v)) => Ok(v),
            Some(Err(e)) => Err(KernelError::Manifest(join3(context, ": ", e.as_str()))),
            None => Err(KernelError::Manifest(join2(context, ": "))),
        },
        ExprOrValue::Literal(l) => match literal_to_value(l) {
            Ok(v) => Ok(v),
            Err(e) => Err(KernelError::Manifest(join3(context, ": ", e.as_str()))),
        },
        ExprOrValue::Json => Err(
            KernelError::Manifest("plan literals must be normalized before execution".to_owned()),
        ),
    }
}

/// What the first `n` invariants say: whether one is violated, or the error of the first that
/// cannot be judged.
pub open spec fn invariants_violated(
    values: Seq<Evaluated>,
    n: nat,
) -> Result<bool, Seq<char>>
    decreases n,
{
    if n == 0 || n > values.len() {
        Ok(false)
    } else {
        match invariants_violated(values, (n - 1) as nat) {
            Err(e) => Err(e),
            Ok(true) => Ok(true),
            Ok(false) => match evaluated(values[n - 1]) {
                Err(e) => Err("plan invariant "@ + decimal((n - 1) as nat) + " eval error: "@ + e),
                Ok(v) => match truth_of(v) {
                    Err(e) => Err(e),
                    Ok(b) => Ok(!b),
                },
            },
        }
    }
}

proof fn lemma_verdict_stands(values: Seq<Evaluated>, k: nat, n: nat)
    requires
        k <= n <= values.len(),
        invariants_violated(values, k) != Ok::<bool, Seq<char>>(false),
    ensures
        invariants_violated(values, n) == invariants_violated(values, k),
    decreases n,
{
    if k < n {
        lemma_verdict_stands(values, k, (n - 1) as nat);
    }
}

/// The error of a plan whose invariant is violated.
pub open spec fn is_violation(e: PlanError) -> bool {
    e.code@ == "invariant_violation"@
}

/// Judges the invariants of a plan by what they evaluate to, in order.
pub fn judge_invariants(values: &Vec<Evaluated>) -> (r: Result<Option<PlanError>, KernelError>)
    ensures
        match (r, invariants_violated(values@, values@.len())) {
            (Ok(None), Ok(b)) => !b,
            (Ok(Some(e)), Ok(b)) => b && is_violation(e),
            (Err(e), Err(t)) => is_manifest_error(e, t),
            _ => false,
        },
{
    let mut i: usize = 0;
    while i < values.len()
        invariant
            i <= values@.len(),
            invariants_violated(values@, i as nat) == Ok::<bool, Seq<char>>(false),
        decreases values@.len() - i,
    {
        match &values[i] {
            Err(e) => {
                proof {
                    lemma_verdict_stands(values@, (i + 1) as nat, values@.len());
                }
                let number = decimal_text(i as u64);
                let head = join3("plan invariant ", number.as_str(), " eval error: ");
                return Err(KernelError::Manifest(join2(head.as_str(), e.as_str())));
            },
            Ok(v) => match value_to_bool(v) {
                Err(e) => {
                    proof {
                        lemma_verdict_stands(values@, (i + 1) as nat, values@.len());
                    }
                    return Err(e);
                },
                Ok(b) => {
                    if !b {
                        proof {
                            lemma_verdict_stands(values@, (i + 1) as nat, values@.len());
                        }
                        return Ok(Some(PlanError { code: "invariant_violation".to_owned() }));
                    }
                },
            },
        }
        i += 1;
    }
    Ok(None)
}

/// The run in which the step has bound `v` to `var` and completed with it.
pub open spec fn assigned(
    s: PlanState,
    step: Seq<char>,
    var: Seq<char>,
    v: ValueTree,
) -> PlanState {
    completed_with(PlanState { vars: s.vars.insert(var, v), ..s }, step, v)
}

/// The value of a step that has emitted an effect.
pub open spec fn effect_record(handle: Seq<char>, hash: Seq<u8>, params: ValueTree) -> ValueTree {
    ValueTree::Record(
        seq![
            ("handle"@, ValueTree::Text(handle)),
            ("intent_hash"@, ValueTree::Bytes(hash)),
            ("params"@, params),
        ],
    )
}

/// The run in which the step has emitted an effect under `handle`.
pub open spec fn effect_emitted(
    s: PlanState,
    step: Seq<char>,
    handle: Seq<char>,
    hash: Seq<u8>,
    params: ValueTree,
) -> PlanState {
    completed_with(
        PlanState {
            handles: s.handles.insert(handle, hash),
            vars: s.vars.insert(handle, ValueTree::Text(handle)),
            ..s
        },
        step,
        effect_record(handle, hash, params),
    )
}

/// The run in which the step has taken the receipt that came for it.
pub open spec fn receipt_taken(s: PlanState, step: Seq<char>, var: Seq<char>) -> PlanState {
    assigned(PlanState { receipts: s.receipts.remove(step), ..s }, step, var, s.receipts[step])
}

/// What an `await_event` step does: it takes the event that has come, or begins to wait.
pub open spec fn event_awaited(
    s: PlanState,
    step: Seq<char>,
    event: Seq<char>,
    where_clause: Option<Expr>,
    var: Seq<char>,
) -> PlanState {
    match s.event_value {
        Some(v) => completed_with(
            PlanState {
                event_value: None,
                event_wait: None,
                vars: s.vars.insert(var, v),
                ..s
            },
            step,
            v,
        ),
        None => with_state(
            PlanState {
                event_wait: Some(EventWaitView { step_id: step, schema: event, where_clause }),
                ..s
            },
            step,
            StepState::WaitingEvent,
        ),
    }
}

/// The value of a step that has raised an event.
pub open spec fn event_record(schema: Seq<char>, v: ValueTree) -> ValueTree {
    ValueTree::Record(seq![("schema"@, ValueTree::Text(schema)), ("value"@, v)])
}

/// The run that an end step has ended with the value `v`.
pub open spec fn ended_with(s: PlanState, step: Seq<char>, v: ValueTree) -> PlanState {
    PlanState { steps: s.steps.insert(step, v), completed: true, ..s }
}

/// What is wrong with an end step, by whether the plan has an output and the step a result.
pub open spec fn end_fault(output: Option<String>, result: Option<ExprOrValue>) -> Option<
    Seq<char>,
> {
    match (output, result) {
        (Some(_), None) => Some("plan declares output schema but end result missing"@),
        (None, Some(_)) => Some("plan without output schema cannot return a result"@),
        _ => None,
    }
}

/// Whether a plan's output and an end step's result go together.
pub fn check_end(output: &Option<String>, result: &Option<ExprOrValue>) -> (r: Result<
    (),
    KernelError,
>)
    ensures
        match (r, end_fault(*output, *result)) {
            (Ok(_), None) => true,
            (Err(e), Some(t)) => is_manifest_error(e, t),
            _ => false,
        },
{
    match (output, result) {
        (Some(_), None) => Err(
            KernelError::Manifest("plan declares output schema but end result missing".to_owned()),
        ),
        (None, Some(_)) => Err(
            KernelError::Manifest("plan without output schema cannot return a result".to_owned()),
        ),
        _ => Ok(()),
    }
}

impl PlanInstance {
    /// Records the value of a step and completes it.
    fn complete_with(&mut self, step_id: &str, value: ExprValue)
        ensures
            final(self)@ == completed_with(old(self)@, step_id@, value@),
            final(self).same_fixed(old(self)),
            old(self).wf() ==> final(self).wf(),
    {
        self.env.steps.insert(step_id.to_owned(), value);
        let ghost mid = *self;
        assert(mid@ =~= (PlanState {
            steps: old(self)@.steps.insert(step_id@, value@),
            ..old(self)@
        }));
        self.mark_completed(step_id);
    }

    /// Binds a value to a variable and completes the step with it.
    pub fn apply_assign(&mut self, step_id: &str, var: &String, value: ExprValue)
        ensures
            final(self)@ == assigned(old(self)@, step_id@, var@, value@),
            final(self).same_fixed(old(self)),
            old(self).wf() ==> final(self).wf(),
    {
        let copy = value.copied();
        self.env.vars.insert(var.clone(), copy);
        assert(self@ =~= (PlanState {
            vars: old(self)@.vars.insert(var@, value@),
            ..old(self)@
        }));
        self.complete_with(step_id, value);
    }

    /// Records the intent of an effect under its handle and completes the step.
    pub fn apply_emit(
        &mut self,
        step_id: &str,
        handle: &String,
        intent_hash: [u8; 32],
        params: ExprValue,
    )
        ensures
            final(self)@ == effect_emitted(
                old(self)@,
                step_id@,
                handle@,
                intent_hash@,
                params@,
            ),
            final(self).same_fixed(old(self)),
            old(self).wf() ==> final(self).wf(),
    {
        broadcast use lemma_value_tree;

        self.effect_handles.insert(handle.clone(), intent_hash);
        self.env.vars.insert(handle.clone(), ExprValue::Text(handle.clone()));
        assert(self@ =~= (PlanState {
            handles: old(self)@.handles.insert(handle@, intent_hash@),
            vars: old(self)@.vars.insert(handle@, ValueTree::Text(handle@)),
            ..old(self)@
        }));
        let ghost params_tree = params@;
        let mut record: Vec<(String, ExprValue)> = Vec::new();
        record.push(("handle".to_owned(), ExprValue::Text(handle.clone())));
        record.push(("intent_hash".to_owned(), ExprValue::Bytes(hash_bytes(&intent_hash))));
        record.push(("params".to_owned(), params));
        assert(field_trees(record@) =~= seq![
            ("handle"@, ValueTree::Text(handle@)),
            ("intent_hash"@, ValueTree::Bytes(intent_hash@)),
            ("params"@, params_tree),
        ]);
        self.complete_with(step_id, ExprValue::Record(record));
    }

    /// Takes the receipt that has come for the step, and says whether one has.
    pub fn take_receipt(&mut self, step_id: &str, var: &String) -> (r: bool)
        ensures
            r == old(self)@.receipts.contains_key(step_id@),
            final(self)@ == if r {
                receipt_taken(old(self)@, step_id@, var@)
            } else {
                old(self)@
            },
            final(self).same_fixed(old(self)),
            old(self).wf() ==> final(self).wf(),
    {
        match self.receipt_values.remove(step_id) {
            None => {
                assert(self@.receipts =~= old(self)@.receipts);
                false
            },
            Some(value) => {
                assert(self@ =~= (PlanState {
                    receipts: old(self)@.receipts.remove(step_id@),
                    ..old(self)@
                }));
                self.apply_assign(step_id, var, value);
                true
            },
        }
    }

    /// Takes the event that has come for the step, or begins to wait for one, and says which. A
    /// correlated run waits only with a predicate.
    pub fn apply_await_event(
        &mut self,
        step_id: &str,
        event: &String,
        where_clause: &Option<Expr>,
        var: &String,
    ) -> (r: Result<bool, KernelError>)
        ensures
            final(self).same_fixed(old(self)),
            old(self).wf() ==> final(self).wf(),
            if old(self).correlation_id is Some && where_clause is None {
                &&& r is Err
                &&& is_manifest_error(
                    r->Err_0,
                    "await_event requires a where predicate when correlate_by is set"@,
                )
                &&& final(self)@ == old(self)@
            } else {
                &&& r == Ok::<bool, KernelError>(old(self)@.event_value is Some)
                &&& final(self)@ == event_awaited(
                    old(self)@,
                    step_id@,
                    event@,
                    *where_clause,
                    var@,
                )
            },
    {
        if self.correlation_id.is_some() && where_clause.is_none() {
            return Err(
                KernelError::Manifest(
                    "await_event requires a where predicate when correlate_by is set".to_owned(),
                ),
            );
        }
        let taken = self.event_value.take();
        match taken {
            Some(value) => {
                let copy = value.copied();
                self.env.vars.insert(var.clone(), copy);
                self.event_wait = None;
                assert(self@ =~= (PlanState {
                    event_value: None,
                    event_wait: None,
                    vars: old(self)@.vars.insert(var@, value@),
                    ..old(self)@
                }));
                self.complete_with(step_id, value);
                Ok(true)
            },
            None => {
                let clause = match where_clause {
                    Some(e) => Some(e.clone()),
                    None => None,
                };
                self.event_wait = Some(
                    EventWait {
                        step_id: step_id.to_owned(),
                        schema: event.clone(),
                        where_clause: clause,
                    },
                );
                self.set_state(step_id, StepState::WaitingEvent);
                assert(self@ =~= event_awaited(
                    old(self)@,
                    step_id@,
                    event@,
                    *where_clause,
                    var@,
                ));
                Ok(false)
            },
        }
    }

    /// Completes a step that has raised an event with the value `value`.
    pub fn apply_raise(&mut self, step_id: &str, schema: &String, value: ExprValue)
        ensures
            final(self)@ == completed_with(
                old(self)@,
                step_id@,
                event_record(schema@, value@),
            ),
            final(self).same_fixed(old(self)),
            old(self).wf() ==> final(self).wf(),
    {
        broadcast use lemma_value_tree;

        let ghost v = value@;
        let mut record: Vec<(String, ExprValue)> = Vec::new();
        record.push(("schema".to_owned(), ExprValue::Text(schema.clone())));
        record.push(("value".to_owned(), value));
        assert(field_trees(record@) =~= seq![
            ("schema"@, ValueTree::Text(schema@)),
            ("value"@, v),
        ]);
        self.complete_with(step_id, ExprValue::Record(record));
    }

    /// Ends the run with a value.
    pub fn apply_end(&mut self, step_id: &str, value: ExprValue)
        ensures
            final(self)@ == ended_with(old(self)@, step_id@, value@),
            final(self).same_fixed(old(self)),
            old(self).wf() ==> final(self).wf(),
    {
        self.env.steps.insert(step_id.to_owned(), value);
        self.completed = true;
        assert(self@ =~= ended_with(old(self)@, step_id@, value@));
    }
}

/// The bytes of a digest.
pub fn hash_bytes(hash: &[u8; 32]) -> (r: Vec<u8>)
    ensures
        r@ == hash@,
{
    let mut out: Vec<u8> = Vec::new();
    let mut i: usize = 0;
    while i < 32
        invariant
            i <= 32,
            out@ == hash@.take(i as int),
        decreases 32 - i,
    {
        out.push(hash[i]);
        assert(hash@.take(i + 1) =~= hash@.take(i as int).push(hash@[i as int]));
        i += 1;
    }
    assert(hash@.take(32) =~= hash@);
    out
}

} // verus!
