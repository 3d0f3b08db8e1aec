//! The host of the plans of a kernel: it makes intents of effects and queues them.
use vstd::prelude::*;

use crate::capability::CapGrantResolution;
use crate::cbor::clone_bytes;
use crate::effects::{enqueued, intents_view, EffectCodec, EffectIntent, EffectManager,
    EffectParamPreprocessor, EffectQueue, EffectRuntimeIdentity, EffectSource, IntentView};
use crate::error::KernelError;
use crate::secret::SecretResolver;
use crate::text::copy_option;

use super::tick::{PlanEvaluator, PlanHost};

verus! {

/// An evaluator, the manager that makes intents, and the queue that they wait in.
pub struct EffectHost<E, P, R, C> {
    pub evaluator: E,
    pub manager: EffectManager<P, R>,
    pub codec: C,
    pub queue: EffectQueue,
}

/// A copy of what runs an effect.
fn copy_identity(x: &EffectRuntimeIdentity) -> (r: EffectRuntimeIdentity)
    ensures
        r == *x,
{
    EffectRuntimeIdentity {
        effect_name: x.effect_name.clone(),
        effect_hash: copy_option(&x.effect_hash),
        executor_module: copy_option(&x.executor_module),
        executor_module_hash: copy_option(&x.executor_module_hash),
        executor_entrypoint: x.executor_entrypoint.clone(),
    }
}

/// A copy of an intent.
fn copy_intent(i: &EffectIntent) -> (r: EffectIntent)
    ensures
        r@ == i@,
{
    let identity = match &i.identity {
        Some(x) => Some(copy_identity(x)),
        None => None,
    };
    EffectIntent {
        kind: i.kind.clone(),
        cap_name: i.cap_name.clone(),
        identity,
        params_cbor: clone_bytes(&i.params_cbor),
        idempotency_key: i.idempotency_key,
        intent_hash: i.intent_hash,
    }
}

impl<E: PlanEvaluator, P: EffectParamPreprocessor, R: SecretResolver, C: EffectCodec> PlanHost
    for EffectHost<E, P, R, C> {
    type Evaluator = E;

    open spec fn mind(&self) -> E {
        self.evaluator
    }

    open spec fn handed(&self) -> Seq<IntentView> {
        intents_view(self.queue.list())
    }

    fn evaluator(&self) -> (r: &E) {
        &self.evaluator
    }

    /// The intent is the one that the manager makes; it waits in the queue after the others.
    fn enqueue_effect(
        &mut self,
        plan: &str,
        kind: &str,
        grant: &CapGrantResolution,
        params_cbor: Vec<u8>,
        idempotency_key: [u8; 32],
    ) -> (r: Result<EffectIntent, KernelError>)
        ensures
            final(self).evaluator == old(self).evaluator,
            final(self).manager == old(self).manager,
            final(self).codec == old(self).codec,
            exists|source: EffectSource|
                source is Plan && source.origin() == plan@ && #[trigger] enqueued(
                    r,
                    old(self).manager.knows(kind@),
                    old(self).manager.preprocessor(),
                    &old(self).codec,
                    source,
                    kind@,
                    None,
                    params_cbor@,
                    idempotency_key,
                ),
    {
        let made = self.manager.enqueue_plan_effect(
            plan,
            kind,
            params_cbor,
            idempotency_key,
            &self.codec,
        );
        match made {
            Err(e) => Err(e),
            Ok(intent) => {
                let copy = copy_intent(&intent);
                let ghost before = self.queue.list();
                self.queue.push(copy);
                assert(intents_view(self.queue.list()) =~= intents_view(before).push(intent@));
                Ok(intent)
            },
        }
    }
}

} // verus!
