//! Waiting for receipts and events.
use vstd::prelude::*;

use crate::bytes::{bytes_before, bytes_eq, bytes_lt, lemma_bytes_irreflexive, lemma_bytes_total,
    lemma_bytes_transitive};
use crate::cbor::{CborTree, CborValue};
use crate::cbor_codec::{decode_receipt_value, receipt_value, truth_of, value_to_bool};
use crate::error::{is_manifest_error, KernelError};
use crate::schema_value::{cbor_to_expr_value, typed_value};
use crate::text::{join2, join3, str_eq};
use crate::types::type_settles;
use crate::value::{ExprValue, ValueTree};

use super::readiness::{evaluated, Evaluated};
use super::{opt_tree, wait_views, waits_ordered, with_state, DomainEvent, PlanInstance, PlanState,
    ReceiptWait, StepState};

verus! {

/// The index of the wait for `hash`, or the number of waits.
pub open spec fn wait_index(waits: Seq<(Seq<u8>, Seq<char>)>, hash: Seq<u8>) -> int
    decreases waits.len(),
{
    if waits.len() == 0 {
        0
    } else if waits[0].0 == hash {
        0
    } else {
        1 + wait_index(waits.drop_first(), hash)
    }
}

/// Whether some step waits for `hash`.
pub open spec fn waits_for(waits: Seq<(Seq<u8>, Seq<char>)>, hash: Seq<u8>) -> bool {
    wait_index(waits, hash) < waits.len()
}

/// The waits with `step` waiting for `hash`, in the order of the hashes.
pub open spec fn wait_insert(
    waits: Seq<(Seq<u8>, Seq<char>)>,
    hash: Seq<u8>,
    step: Seq<char>,
) -> Seq<(Seq<u8>, Seq<char>)>
    decreases waits.len(),
{
    if waits.len() == 0 {
        seq![(hash, step)]
    } else if waits[0].0 == hash {
        seq![(hash, step)] + waits.drop_first()
    } else if bytes_lt(hash, waits[0].0) {
        seq![(hash, step)] + waits
    } else {
        seq![waits[0]] + wait_insert(waits.drop_first(), hash, step)
    }
}

/// After an insertion the new hash is waited for, and so are the others as before.
pub proof fn lemma_wait_insert(
    waits: Seq<(Seq<u8>, Seq<char>)>,
    hash: Seq<u8>,
    step: Seq<char>,
    other: Seq<u8>,
)
    ensures
        waits_for(wait_insert(waits, hash, step), other) <==> (other == hash || waits_for(
            waits,
            other,
        )),
    decreases waits.len(),
{
    let t = wait_insert(waits, hash, step);
    reveal_with_fuel(wait_index, 2);
    lemma_wait_index(waits, other);
    lemma_wait_index(t, other);
    if waits.len() == 0 {
        assert(t.drop_first() =~= Seq::empty());
        assert(t[0].0 == hash);
    } else if waits[0].0 == hash {
        assert(t.drop_first() =~= waits.drop_first());
        assert(t[0].0 == hash);
    } else if bytes_lt(hash, waits[0].0) {
        assert(t.drop_first() =~= waits);
        assert(t[0].0 == hash);
    } else {
        assert(t.drop_first() =~= wait_insert(waits.drop_first(), hash, step));
        assert(t[0] == waits[0]);
        lemma_wait_insert(waits.drop_first(), hash, step, other);
    }
}

/// Inserting keeps the hash order, and puts nothing in but the new wait.
pub proof fn lemma_wait_insert_ordered(
    waits: Seq<(Seq<u8>, Seq<char>)>,
    hash: Seq<u8>,
    step: Seq<char>,
)
    requires
        waits_ordered(waits),
    ensures
        waits_ordered(wait_insert(waits, hash, step)),
        forall|i: int|
            #![trigger wait_insert(waits, hash, step)[i]]
            0 <= i < wait_insert(waits, hash, step).len() ==> (wait_insert(waits, hash, step)[i].0
                == hash || exists|j: int|
                0 <= j < waits.len() && (#[trigger] waits[j]).0 == wait_insert(
                    waits,
                    hash,
                    step,
                )[i].0),
    decreases waits.len(),
{
    let t = wait_insert(waits, hash, step);
    if waits.len() == 0 {
    } else if waits[0].0 == hash {
        assert forall|i: int| 0 <= i < t.len() implies (#[trigger] t[i]).0 == waits[i].0 by {}
    } else if bytes_lt(hash, waits[0].0) {
        assert forall|i: int, j: int| 0 <= i < j < t.len() implies bytes_lt(
            (#[trigger] t[i]).0,
            (#[trigger] t[j]).0,
        ) by {
            assert(t[j] == waits[j - 1]);
            if i == 0 {
                if j > 1 {
                    assert(bytes_lt(waits[0].0, waits[j - 1].0));
                    lemma_bytes_transitive(hash, waits[0].0, waits[j - 1].0);
                }
            } else {
                assert(t[i] == waits[i - 1]);
            }
        }
        assert forall|i: int| 0 <= i < t.len() implies ((#[trigger] t[i]).0 == hash || exists|j: int|
            0 <= j < waits.len() && (#[trigger] waits[j]).0 == t[i].0) by {
            if i > 0 {
                assert(t[i] == waits[i - 1]);
            }
        }
    } else {
        let rest = waits.drop_first();
        let after = wait_insert(rest, hash, step);
        assert(waits_ordered(rest)) by {
            assert forall|i: int, j: int| 0 <= i < j < rest.len() implies bytes_lt(
                (#[trigger] rest[i]).0,
                (#[trigger] rest[j]).0,
            ) by {
                assert(rest[i] == waits[i + 1]);
                assert(rest[j] == waits[j + 1]);
            }
        }
        lemma_wait_insert_ordered(rest, hash, step);
        lemma_bytes_total(hash, waits[0].0);
        assert forall|i: int, j: int| 0 <= i < j < t.len() implies bytes_lt(
            (#[trigger] t[i]).0,
            (#[trigger] t[j]).0,
        ) by {
            assert(t[j] == after[j - 1]);
            if i == 0 {
                if after[j - 1].0 != hash {
                    let m = choose|m: int|
                        0 <= m < rest.len() && (#[trigger] rest[m]).0 == after[j - 1].0;
                    assert(rest[m] == waits[m + 1]);
                    assert(bytes_lt(waits[0].0, waits[m + 1].0));
                }
            } else {
                assert(t[i] == after[i - 1]);
            }
        }
        assert forall|i: int| 0 <= i < t.len() implies ((#[trigger] t[i]).0 == hash || exists|j: int|
            0 <= j < waits.len() && (#[trigger] waits[j]).0 == t[i].0) by {
            if i > 0 {
                assert(t[i] == after[i - 1]);
                if after[i - 1].0 != hash {
                    let m = choose|m: int|
                        0 <= m < rest.len() && (#[trigger] rest[m]).0 == after[i - 1].0;
                    assert(rest[m] == waits[m + 1]);
                }
            } else {
                assert(t[0] == waits[0]);
            }
        }
    }
}

/// A wait with a greater hash than all others goes to the end.
pub proof fn lemma_wait_insert_last(
    waits: Seq<(Seq<u8>, Seq<char>)>,
    hash: Seq<u8>,
    step: Seq<char>,
)
    requires
        forall|i: int| 0 <= i < waits.len() ==> bytes_lt((#[trigger] waits[i]).0, hash),
    ensures
        wait_insert(waits, hash, step) == waits.push((hash, step)),
    decreases waits.len(),
{
    if waits.len() > 0 {
        let rest = waits.drop_first();
        assert(bytes_lt(waits[0].0, hash));
        assert(!bytes_lt(hash, waits[0].0)) by {
            if bytes_lt(hash, waits[0].0) {
                lemma_bytes_transitive(hash, waits[0].0, hash);
                lemma_bytes_irreflexive(hash);
            }
        }
        assert(waits[0].0 != hash) by {
            lemma_bytes_irreflexive(hash);
        }
        assert forall|i: int| 0 <= i < rest.len() implies bytes_lt(
            (#[trigger] rest[i]).0,
            hash,
        ) by {
            assert(rest[i] == waits[i + 1]);
        }
        lemma_wait_insert_last(rest, hash, step);
        assert(seq![waits[0]] + rest.push((hash, step)) =~= waits.push((hash, step)));
    } else {
        assert(wait_insert(waits, hash, step) =~= waits.push((hash, step)));
    }
}

/// What `wait_index` finds.
pub proof fn lemma_wait_index(waits: Seq<(Seq<u8>, Seq<char>)>, hash: Seq<u8>)
    ensures
        0 <= wait_index(waits, hash) <= waits.len(),
        wait_index(waits, hash) < waits.len() ==> waits[wait_index(waits, hash)].0 == hash,
        forall|i: int| 0 <= i < wait_index(waits, hash) ==> (#[trigger] waits[i]).0 != hash,
    decreases waits.len(),
{
    if waits.len() > 0 && waits[0].0 != hash {
        lemma_wait_index(waits.drop_first(), hash);
        assert forall|i: int| 0 <= i < wait_index(waits, hash) implies (#[trigger] waits[i]).0
            != hash by {
            if i > 0 {
                assert(waits.drop_first()[i - 1] == waits[i]);
            }
        }
    }
}

/// The run once the receipt of the intent `hash` has come with the value `v`.
pub open spec fn receipt_delivered(s: PlanState, hash: Seq<u8>, v: ValueTree) -> PlanState {
    let i = wait_index(s.waits, hash);
    if i < s.waits.len() {
        let step = s.waits[i].1;
        PlanState {
            waits: s.waits.remove(i),
            receipts: s.receipts.insert(step, v),
            states: s.states.insert(step, StepState::Pending),
            ..s
        }
    } else {
        s
    }
}

/// The run with its only wait moved to `hash`.
pub open spec fn wait_moved(s: PlanState, hash: Seq<u8>) -> PlanState {
    if !waits_for(s.waits, hash) && s.waits.len() == 1 {
        PlanState { waits: seq![(hash, s.waits[0].1)], ..s }
    } else {
        s
    }
}

/// The run with `step` waiting for the receipt of `hash`.
pub open spec fn receipt_awaited(s: PlanState, step: Seq<char>, hash: Seq<u8>) -> PlanState {
    with_state(
        PlanState { waits: wait_insert(s.waits, hash, step), ..s },
        step,
        StepState::WaitingReceipt,
    )
}

/// The intent that a handle stands for, or what is wrong with it. `handle` is the evaluation of
/// the handle expression.
pub open spec fn handle_intent(
    s: PlanState,
    handle: Result<ValueTree, Seq<char>>,
) -> Result<Seq<u8>, Seq<char>> {
    match handle {
        Err(e) => Err("plan await eval error: "@ + e),
        Ok(ValueTree::Text(t)) => if s.handles.contains_key(t) {
            Ok(s.handles[t])
        } else {
            Err("unknown effect handle '"@ + t + "'"@)
        },
        Ok(_) => Err("await_receipt expects handle text"@),
    }
}

impl PlanInstance {
    fn find_wait(&self, hash: &[u8; 32]) -> (r: usize)
        ensures
            r == wait_index(self@.waits, hash@),
            r <= self.receipt_waits@.len(),
    {
        let ghost s = self@.waits;
        let mut i: usize = 0;
        assert(s.skip(0) =~= s);
        while i < self.receipt_waits.len()
            invariant
                i <= self.receipt_waits@.len(),
                s == wait_views(self.receipt_waits@),
                wait_index(s, hash@) == i + wait_index(s.skip(i as int), hash@),
            decreases self.receipt_waits@.len() - i,
        {
            assert(s.skip(i as int)[0].0 == self.receipt_waits@[i as int].intent_hash@);
            if bytes_eq(&self.receipt_waits[i].intent_hash, hash) {
                return i;
            }
            assert(s.skip(i as int).drop_first() =~= s.skip(i + 1));
            i += 1;
        }
        i
    }

    /// Hands the receipt of an intent to the step that waits for it, and says whether one does.
    /// `typed` is the payload read as a value, where it is the encoding of one.
    pub fn deliver_receipt(
        &mut self,
        intent_hash: [u8; 32],
        typed: Option<ExprValue>,
        payload: &Vec<u8>,
    ) -> (r: Result<bool, KernelError>)
        ensures
            final(self).same_fixed(old(self)),
            old(self).wf() ==> final(self).wf(),
            final(self)@ == receipt_delivered(
                old(self)@,
                intent_hash@,
                receipt_value(opt_tree(typed), payload@),
            ),
            r == Ok::<bool, KernelError>(waits_for(old(self)@.waits, intent_hash@)),
    {
        let i: usize = self.find_wait(&intent_hash);
        if i >= self.receipt_waits.len() {
            return Ok(false);
        }
        let ghost s = self@;
        let wait = self.receipt_waits.remove(i);
        assert(self@.waits =~= s.waits.remove(i as int));
        assert(old(self).wf() ==> waits_ordered(self@.waits)) by {
            let t = self@.waits;
            if waits_ordered(s.waits) {
                assert forall|a: int, b: int| 0 <= a < b < t.len() implies bytes_lt(
                    (#[trigger] t[a]).0,
                    (#[trigger] t[b]).0,
                ) by {
                    let x = if a < i { a } else { a + 1 };
                    let y = if b < i { b } else { b + 1 };
                    assert(t[a] == s.waits[x] && t[b] == s.waits[y]);
                }
            }
        }
        let value = decode_receipt_value(typed, payload);
        self.receipt_values.insert(wait.step_id.clone(), value);
        self.step_states.insert(wait.step_id, StepState::Pending);
        assert(self@ =~= receipt_delivered(s, intent_hash@, value@));
        Ok(true)
    }

    /// The intent whose receipt comes first in hash order among those waited for.
    pub fn pending_receipt_hash(&self) -> (r: Option<[u8; 32]>)
        ensures
            match r {
                Some(h) => self@.waits.len() > 0 && h@ == self@.waits[0].0,
                None => self@.waits.len() == 0,
            },
    {
        if self.receipt_waits.len() > 0 {
            Some(self.receipt_waits[0].intent_hash)
        } else {
            None
        }
    }

    /// The intents whose receipts are waited for, in hash order.
    pub fn pending_receipt_hashes(&self) -> (r: Vec<[u8; 32]>)
        ensures
            r@.len() == self@.waits.len(),
            forall|i: int| 0 <= i < r@.len() ==> (#[trigger] r@[i])@ == self@.waits[i].0,
    {
        let mut out: Vec<[u8; 32]> = Vec::new();
        let mut i: usize = 0;
        while i < self.receipt_waits.len()
            invariant
                i <= self.receipt_waits@.len(),
                out@.len() == i,
                forall|k: int|
                    0 <= k < i ==> (#[trigger] out@[k])@ == self.receipt_waits@[k].intent_hash@,
            decreases self.receipt_waits@.len() - i,
        {
            out.push(self.receipt_waits[i].intent_hash);
            i += 1;
        }
        out
    }

    /// Moves the only wait to another intent.
    pub fn override_pending_receipt_hash(&mut self, hash: [u8; 32])
        ensures
            final(self).same_fixed(old(self)),
            old(self).wf() ==> final(self).wf(),
            final(self)@ == wait_moved(old(self)@, hash@),
    {
        let i: usize = self.find_wait(&hash);
        if i < self.receipt_waits.len() {
            return ;
        }
        if self.receipt_waits.len() == 1 {
            let ghost s = self@;
            let step_id = self.receipt_waits[0].step_id.clone();
            let mut waits: Vec<ReceiptWait> = Vec::new();
            waits.push(ReceiptWait { step_id, intent_hash: hash });
            self.receipt_waits = waits;
            assert(self@.waits =~= seq![(hash@, s.waits[0].1)]);
        }
    }

    /// Whether a step waits for the receipt of `hash`.
    pub fn waiting_on_receipt(&self, hash: [u8; 32]) -> (r: bool)
        ensures
            r == waits_for(self@.waits, hash@),
    {
        self.find_wait(&hash) < self.receipt_waits.len()
    }

    /// The schema of the event that is waited for.
    pub fn waiting_event_schema(&self) -> (r: Option<&str>)
        ensures
            match (r, self@.event_wait) {
                (Some(t), Some(w)) => t@ == w.schema,
                (None, None) => true,
                _ => false,
            },
    {
        match &self.event_wait {
            Some(w) => Some(w.schema.as_str()),
            None => None,
        }
    }

    /// Lets a step wait for the receipt of the intent that a handle stands for.
    pub fn register_receipt_wait(&mut self, step_id: &str, handle: Evaluated) -> (r: Result<
        [u8; 32],
        KernelError,
    >)
        ensures
            final(self).same_fixed(old(self)),
            old(self).wf() ==> final(self).wf(),
            match (r, handle_intent(old(self)@, evaluated(handle))) {
                (Ok(h), Ok(t)) => h@ == t && final(self)@ == receipt_awaited(
                    old(self)@,
                    step_id@,
                    t,
                ),
                (Err(e), Err(t)) => is_manifest_error(e, t) && final(self)@ == old(self)@,
                _ => false,
            },
    {
        let value = match handle {
            Ok(v) => v,
            Err(e) => {
                return Err(KernelError::Manifest(join2("plan await eval error: ", e.as_str())));
            },
        };
        let name = match value {
            ExprValue::Text(t) => t,
            _ => {
                return Err(KernelError::Manifest("await_receipt expects handle text".to_owned()));
            },
        };
        let hash = match self.effect_handles.get(name.as_str()) {
            Some(h) => *h,
            None => {
                return Err(
                    KernelError::Manifest(join3("unknown effect handle '", name.as_str(), "'")),
                );
            },
        };
        self.insert_wait(step_id, hash);
        self.set_state(step_id, StepState::WaitingReceipt);
        Ok(hash)
    }

    pub(crate) fn insert_wait(&mut self, step_id: &str, hash: [u8; 32])
        ensures
            final(self).same_fixed(old(self)),
            old(self).wf() ==> final(self).wf(),
            final(self)@ == (PlanState {
                waits: wait_insert(old(self)@.waits, hash@, step_id@),
                ..old(self)@
            }),
    {
        let ghost s = self@.waits;
        proof {
            if old(self).wf() {
                lemma_wait_insert_ordered(s, hash@, step_id@);
            }
        }
        let mut i: usize = 0;
        assert(s.take(0) + wait_insert(s.skip(0), hash@, step_id@) =~= wait_insert(
            s,
            hash@,
            step_id@,
        )) by {
            assert(s.skip(0) =~= s);
        }
        while i < self.receipt_waits.len()
            invariant
                i <= self.receipt_waits@.len(),
                *self == *old(self),
                old(self).wf() ==> waits_ordered(wait_insert(s, hash@, step_id@)),
                s == wait_views(self.receipt_waits@),
                wait_insert(s, hash@, step_id@) == s.take(i as int) + wait_insert(
                    s.skip(i as int),
                    hash@,
                    step_id@,
                ),
            decreases self.receipt_waits@.len() - i,
        {
            assert(s.skip(i as int)[0].0 == self.receipt_waits@[i as int].intent_hash@);
            assert(s.skip(i as int).drop_first() =~= s.skip(i + 1));
            if bytes_eq(&self.receipt_waits[i].intent_hash, &hash) {
                self.receipt_waits.set(
                    i,
                    ReceiptWait { step_id: step_id.to_owned(), intent_hash: hash },
                );
                assert(self@.waits =~= s.take(i as int) + (seq![(hash@, step_id@)] + s.skip(
                    i + 1,
                )));
                return ;
            }
            if bytes_before(&hash, &self.receipt_waits[i].intent_hash) {
                self.receipt_waits.insert(
                    i,
                    ReceiptWait { step_id: step_id.to_owned(), intent_hash: hash },
                );
                assert(self@.waits =~= s.take(i as int) + (seq![(hash@, step_id@)] + s.skip(
                    i as int,
                )));
                return ;
            }
            assert(s.take(i as int) + (seq![s[i as int]] + wait_insert(
                s.skip(i + 1),
                hash@,
                step_id@,
            )) =~= s.take(i + 1) + wait_insert(s.skip(i + 1), hash@, step_id@));
            i += 1;
        }
        assert(s.take(i as int) + wait_insert(s.skip(i as int), hash@, step_id@) =~= s + seq![
            (hash@, step_id@),
        ]);
        self.receipt_waits.push(ReceiptWait { step_id: step_id.to_owned(), intent_hash: hash });
        assert(self@.waits =~= s + seq![(hash@, step_id@)]);
    }
}

/// The value of an event under the schema that is waited for, where the event has that schema.
/// `normalized` is the event's payload in normal form under that schema.
pub open spec fn event_candidate(
    p: &PlanInstance,
    schema: Seq<char>,
    normalized: Result<CborTree, Seq<char>>,
) -> Result<Option<ValueTree>, Seq<char>> {
    match p@.event_wait {
        None => Ok(None),
        Some(w) => if w.schema != schema {
            Ok(None)
        } else {
            match normalized {
                Err(e) => Err("await_event payload decode error: "@ + e),
                Ok(c) => if !p.schema_index.map().contains_key(schema) {
                    Err("schema '"@ + schema + "' not found for await_event"@)
                } else {
                    match typed_value(c, p.schema_index.map()[schema], p.schema_index.map()) {
                        Ok(v) => Ok(Some(v)),
                        Err(e) => Err(e),
                    }
                },
            }
        },
    }
}

/// What comes of an event whose value is `v`. `passes` is the evaluation of the wait's predicate
/// on it, where the wait has one.
pub open spec fn event_judged(
    s: PlanState,
    v: ValueTree,
    passes: Option<Result<ValueTree, Seq<char>>>,
) -> (PlanState, Result<bool, Seq<char>>) {
    let taken = PlanState {
        event_value: Some(v),
        states: s.states.insert(s.event_wait->0.step_id, StepState::Pending),
        ..s
    };
    match passes {
        None => (taken, Ok(true)),
        Some(Err(e)) => (
            PlanState { event: Some(v), ..s },
            Err("await_event where eval error: "@ + e),
        ),
        Some(Ok(b)) => match truth_of(b) {
            Err(e) => (s, Err(e)),
            Ok(true) => (taken, Ok(true)),
            Ok(false) => (s, Ok(false)),
        },
    }
}

pub open spec fn opt_evaluated(e: Option<Evaluated>) -> Option<Result<ValueTree, Seq<char>>> {
    match e {
        Some(x) => Some(evaluated(x)),
        None => None,
    }
}

impl PlanInstance {
    /// Whether values of the event that is waited for can be read: no chain of references and
    /// options that its type comes to runs in a circle.
    pub open spec fn event_settles(&self) -> bool {
        self.event_wait matches Some(w) ==> self.schema_index.map().contains_key(w.schema@)
            ==> type_settles(self.schema_index.map(), self.schema_index.map()[w.schema@])
    }

    /// Whether values of the event that is waited for can be read.
    pub fn event_can_be_read(&self) -> (r: bool)
        ensures
            r == self.event_settles(),
    {
        match &self.event_wait {
            Some(w) => match self.schema_index.get(w.schema.as_str()) {
                Some(t) => self.schema_index.settles(t),
                None => true,
            },
            None => true,
        }
    }

    /// Reads an event under the schema that is waited for, where it has that schema.
    pub fn read_event(&self, event: &DomainEvent, normalized: Result<CborValue, String>) -> (r: Result<
        Option<ExprValue>,
        KernelError,
    >)
        requires
            self.event_settles(),
        ensures
            match (
                r,
                event_candidate(
                    self,
                    event.schema@,
                    match normalized {
                        Ok(c) => Ok(c@),
                        Err(e) => Err(e@),
                    },
                ),
            ) {
                (Ok(a), Ok(b)) => opt_tree(a) == b,
                (Err(e), Err(t)) => is_manifest_error(e, t),
                _ => false,
            },
    {
        let wait = match &self.event_wait {
            Some(w) => w,
            None => {
                return Ok(None);
            },
        };
        if !str_eq(wait.schema.as_str(), event.schema.as_str()) {
            return Ok(None);
        }
        let cbor = match normalized {
            Ok(c) => c,
            Err(e) => {
                return Err(
                    KernelError::Manifest(join2("await_event payload decode error: ", e.as_str())),
                );
            },
        };
        let schema = match self.schema_index.get(wait.schema.as_str()) {
            Some(t) => t,
            None => {
                return Err(
                    KernelError::Manifest(
                        join3("schema '", wait.schema.as_str(), "' not found for await_event"),
                    ),
                );
            },
        };
        match cbor_to_expr_value(&cbor, schema, &self.schema_index) {
            Ok(v) => Ok(Some(v)),
            Err(e) => Err(e),
        }
    }

    /// Takes an event for the step that waits, where it passes the wait's predicate.
    pub fn judge_event(&mut self, value: ExprValue, passes: Option<Evaluated>) -> (r: Result<
        bool,
        KernelError,
    >)
        requires
            old(self)@.event_wait is Some,
        ensures
            final(self).same_fixed(old(self)),
            old(self).wf() ==> final(self).wf(),
            ({
                let want = event_judged(old(self)@, value@, opt_evaluated(passes));
                &&& final(self)@ == want.0
                &&& match (r, want.1) {
                    (Ok(a), Ok(b)) => a == b,
                    (Err(e), Err(t)) => is_manifest_error(e, t),
                    _ => false,
                }
            }),
    {
        match passes {
            None => {},
            Some(Err(e)) => {
                self.env.current_event = Some(value);
                return Err(
                    KernelError::Manifest(join2("await_event where eval error: ", e.as_str())),
                );
            },
            Some(Ok(v)) => match value_to_bool(&v) {
                Err(e) => {
                    return Err(e);
                },
                Ok(b) => {
                    if !b {
                        return Ok(false);
                    }
                },
            },
        }
        let step_id = match &self.event_wait {
            Some(w) => w.step_id.clone(),
            None => String::new(),
        };
        self.event_value = Some(value);
        self.step_states.insert(step_id, StepState::Pending);
        Ok(true)
    }
}

} // verus!
