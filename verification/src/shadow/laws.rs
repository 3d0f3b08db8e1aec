//! What a shadow run foretells, and in which order it goes about it.
use vstd::prelude::*;

use crate::cbor::json_of;
use crate::codec::base64_text;
use crate::effects::IntentView;
use crate::hash::{hash_text, hex_bytes, hex_text, is_hash_text, lemma_hash_text_reads_back,
    lemma_hex_text, sha256};
use crate::receipts::{EffectReceipt, ReceiptStatus};
use crate::snapshot::WorkflowInstanceSnapshot;
use crate::text::texts;
use crate::text_order::texts_sorted;

use super::runner::{all_pending, all_predicted, allowlists, instance_pending, is_mock, is_preview,
    next_step, patch_accepted, ModuleEffects, PendingView, RunView, ShadowStep};
use super::summary::WorkflowInstancePreview;

verus! {

/// Every intent is foretold, in order: its kind, its params as JSON, and a text from which its
/// digest is read back.
pub proof fn lemma_every_intent_is_foretold(s: Seq<IntentView>)
    ensures
        all_predicted(s).len() == s.len(),
        forall|i: int|
            0 <= i < s.len() ==> {
                let p = #[trigger] all_predicted(s)[i];
                &&& p.op == s[i].kind
                &&& p.params_json == json_of(s[i].params)
                &&& hex_bytes(p.intent_hash) == s[i].intent_hash
            },
{
    assert forall|i: int| 0 <= i < s.len() implies {
        let p = #[trigger] all_predicted(s)[i];
        &&& p.op == s[i].kind
        &&& p.params_json == json_of(s[i].params)
        &&& hex_bytes(p.intent_hash) == s[i].intent_hash
    } by {
        lemma_hex_text(s[i].intent_hash);
    }
}

/// A run hands over its seed events in order; then it handles the intents at hand in order; only
/// when none is left does it ask for more, and it stops once there were none.
pub proof fn lemma_run_goes_in_order(v: RunView)
    requires
        v.seeded <= v.seeds <= usize::MAX,
        v.handled <= v.intents.len() <= usize::MAX,
    ensures
        v.seeded < v.seeds <==> next_step(v) == ShadowStep::Seed(v.seeded as usize),
        v.seeded < v.seeds <==> next_step(v) is Seed,
        next_step(v) is Handle <==> v.seeded == v.seeds && v.handled < v.intents.len(),
        next_step(v) matches ShadowStep::Handle(i) ==> i == v.handled,
        next_step(v) is Drain <==> v.seeded == v.seeds && v.handled == v.intents.len() && !v.idle,
        next_step(v) is Done <==> v.seeded == v.seeds && v.handled == v.intents.len() && v.idle,
{
}

/// A receipt that is made up is a success for its intent, without a payload, a cost or a signature.
pub proof fn lemma_made_up_receipt_is_a_success(r: EffectReceipt, intent_hash: [u8; 32])
    requires
        is_mock(r, intent_hash),
    ensures
        r.intent_hash == intent_hash,
        r.status == ReceiptStatus::Success,
        r.payload_cbor@ == Seq::<u8>::empty(),
        r.signature@ == Seq::<u8>::empty(),
        r.cost_cents is None,
{
}

/// Whether a receipt is waited for by an instance, on account of the intent with a number.
pub open spec fn is_waited_for(p: PendingView, i: WorkflowInstanceSnapshot, k: int) -> bool {
    let x = i.inflight_intents@[k];
    &&& p.instance_id == i.instance_id@
    &&& p.origin_module_id == x.origin_module_id@
    &&& p.effect_op == x.effect_kind@
    &&& p.emitted_at_seq == x.emitted_at_seq
    &&& p.intent_hash == hex_text(x.intent_id@)
    &&& match x.origin_instance_key {
        Some(key) => p.origin_instance_key_b64 == Some(base64_text(key@)),
        None => p.origin_instance_key_b64 is None,
    }
}

/// Every intent under way of an instance is among the receipts that are waited for.
pub proof fn lemma_intents_under_way_are_pending(
    s: Seq<WorkflowInstanceSnapshot>,
    n: nat,
    i: int,
    k: int,
)
    requires
        0 <= i < n <= s.len(),
        0 <= k < s[i].inflight_intents@.len(),
    ensures
        exists|j: int|
            0 <= j < all_pending(s, n).len() && is_waited_for(
                #[trigger] all_pending(s, n)[j],
                s[i],
                k,
            ),
    decreases n,
{
    let before = all_pending(s, (n - 1) as nat);
    let new = instance_pending(s[n - 1]);
    let all = all_pending(s, n);
    assert(all == before + new);
    if i < n - 1 {
        lemma_intents_under_way_are_pending(s, (n - 1) as nat, i, k);
        let j = choose|j: int|
            0 <= j < before.len() && is_waited_for(#[trigger] before[j], s[i], k);
        assert(all[j] == before[j]);
    } else {
        assert(all[before.len() + k] == new[k]);
    }
}

/// Every receipt that is waited for is that of an intent under way of an instance.
pub proof fn lemma_pending_is_under_way(s: Seq<WorkflowInstanceSnapshot>, n: nat, j: int)
    requires
        n <= s.len(),
        0 <= j < all_pending(s, n).len(),
    ensures
        exists|i: int, k: int|
            0 <= i < n && 0 <= k < s[i].inflight_intents@.len() && #[trigger] is_waited_for(
                all_pending(s, n)[j],
                s[i],
                k,
            ),
    decreases n,
{
    if n > 0 {
        let before = all_pending(s, (n - 1) as nat);
        let new = instance_pending(s[n - 1]);
        let all = all_pending(s, n);
        assert(all == before + new);
        if j < before.len() {
            lemma_pending_is_under_way(s, (n - 1) as nat, j);
            assert(all[j] == before[j]);
        } else {
            let k = j - before.len();
            assert(all[j] == new[k]);
            assert(is_waited_for(all[j], s[n - 1], k));
        }
    }
}

/// A preview shows of an instance which it is, its state, how far it has come, of which version its
/// module is and how many intents are under way.
pub proof fn lemma_preview_shows_the_instance(
    p: WorkflowInstancePreview,
    i: WorkflowInstanceSnapshot,
)
    requires
        is_preview(p, i),
    ensures
        p.instance_id@ == i.instance_id@,
        p.status@ == i.status.name(),
        p.last_processed_event_seq == i.last_processed_event_seq,
        p.module_version == i.module_version,
        p.inflight_intents == i.inflight_intents@.len(),
{
}

/// Exactly the modules that say which effects they ask for are listed, in their order, with those
/// effects sorted.
pub proof fn lemma_workflows_are_listed(s: Seq<ModuleEffects>, n: nat)
    requires
        n <= s.len(),
    ensures
        allowlists(s, n) == s.take(n as int).filter(
            |m: ModuleEffects| m.effects_emitted is Some,
        ).map_values(
            |m: ModuleEffects| (m.name@, texts_sorted(texts((m.effects_emitted->0)@))),
        ),
    decreases n,
{
    reveal(Seq::filter);
    let all = s.take(n as int);
    let p = |m: ModuleEffects| m.effects_emitted is Some;
    let f = |m: ModuleEffects| (m.name@, texts_sorted(texts((m.effects_emitted->0)@)));
    if n > 0 {
        lemma_workflows_are_listed(s, (n - 1) as nat);
        assert(all.drop_last() =~= s.take(n - 1));
        assert(all.last() == s[n - 1]);
        if s[n - 1].effects_emitted is Some {
            assert(all.filter(p) =~= all.drop_last().filter(p).push(all.last()));
            assert(all.filter(p).map_values(f) =~= all.drop_last().filter(p).map_values(f).push(
                f(all.last()),
            ));
        } else {
            assert(all.filter(p) =~= all.drop_last().filter(p));
        }
        assert(allowlists(s, n) =~= all.filter(p).map_values(f));
    } else {
        assert(all =~= Seq::empty());
        assert(all.filter(p) =~= Seq::empty());
        assert(allowlists(s, n) =~= all.filter(p).map_values(f));
    }
}

/// A patch is taken under the text of the digest of its encoding, and under no text of another
/// digest; one without an encoding is not taken at all.
pub proof fn lemma_patch_is_known_by_its_digest(
    patch_hash: Seq<char>,
    encoded: Result<Vec<u8>, String>,
)
    ensures
        encoded is Err ==> !patch_accepted(patch_hash, encoded),
        encoded matches Ok(b) ==> sha256(b@).len() == 32 ==> patch_accepted(
            hash_text(sha256(b@)),
            encoded,
        ),
        patch_accepted(patch_hash, encoded) ==> is_hash_text(patch_hash) && hex_bytes(
            patch_hash.skip(7),
        ) == sha256((encoded->Ok_0)@),
{
    if let Ok(b) = encoded {
        if sha256(b@).len() == 32 {
            lemma_hash_text_reads_back(sha256(b@));
        }
    }
}

} // verus!
