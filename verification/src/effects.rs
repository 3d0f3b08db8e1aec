//! Effects: intents, and the queue between the kernel and its adapters.
use vstd::prelude::*;

use crate::cbor::clone_bytes;
use crate::error::KernelError;
use crate::hash::ContentHash;
use crate::names::NameMap;
use crate::secret::{inject_secrets_in_params, params_injected, SecretCatalog, SecretFault,
    SecretResolver};
use crate::text::{decimal, decimal_text, join2, str_eq};

pub mod blob;

verus! {

/// What runs an effect.
#[derive(Debug)]
pub struct EffectRuntimeIdentity {
    pub effect_name: String,
    pub effect_hash: Option<String>,
    pub executor_module: Option<String>,
    pub executor_module_hash: Option<String>,
    pub executor_entrypoint: String,
}

/// A request for an effect.
#[derive(Debug)]
pub struct EffectIntent {
    pub kind: String,
    pub cap_name: String,
    pub identity: Option<EffectRuntimeIdentity>,
    pub params_cbor: Vec<u8>,
    pub idempotency_key: [u8; 32],
    pub intent_hash: [u8; 32],
}

/// The model of an intent.
pub struct IntentView {
    pub kind: Seq<char>,
    pub cap_name: Seq<char>,
    pub identity: Option<EffectRuntimeIdentity>,
    pub params: Seq<u8>,
    pub idempotency_key: Seq<u8>,
    pub intent_hash: Seq<u8>,
}

impl View for EffectIntent {
    type V = IntentView;

    open spec fn view(&self) -> IntentView {
        IntentView {
            kind: self.kind@,
            cap_name: self.cap_name@,
            identity: self.identity,
            params: self.params_cbor@,
            idempotency_key: self.idempotency_key@,
            intent_hash: self.intent_hash@,
        }
    }
}

pub open spec fn intents_view(s: Seq<EffectIntent>) -> Seq<IntentView> {
    Seq::new(s.len(), |i: int| s[i]@)
}

/// Who asks for an effect.
#[derive(Debug)]
pub enum EffectSource {
    Workflow { name: String },
    Reducer { name: String },
    Plan { name: String },
}

impl EffectSource {
    pub open spec fn origin(self) -> Seq<char> {
        match self {
            EffectSource::Workflow { name } => name@,
            EffectSource::Reducer { name } => name@,
            EffectSource::Plan { name } => name@,
        }
    }

    /// The name of the module or plan that asks.
    pub fn origin_name(&self) -> (r: &str)
        ensures
            r@ == self.origin(),
    {
        match self {
            EffectSource::Workflow { name } => name.as_str(),
            EffectSource::Reducer { name } => name.as_str(),
            EffectSource::Plan { name } => name.as_str(),
        }
    }
}

/// An effect as a workflow asks for it.
#[derive(Debug)]
pub struct WorkflowEffect {
    pub kind: String,
    pub params_cbor: Vec<u8>,
    pub idempotency_key: Option<Vec<u8>>,
}

/// The intents that wait, in order.
#[derive(Debug)]
pub struct EffectQueue {
    intents: Vec<EffectIntent>,
}

impl EffectQueue {
    pub closed spec fn list(&self) -> Seq<EffectIntent> {
        self.intents@
    }

    /// An empty queue.
    pub fn new() -> (r: Self)
        ensures
            r.list() == Seq::<EffectIntent>::empty(),
    {
        EffectQueue { intents: Vec::new() }
    }

    pub fn push(&mut self, intent: EffectIntent)
        ensures
            final(self).list() == old(self).list().push(intent),
    {
        self.intents.push(intent);
    }

    /// Takes out everything.
    pub fn drain(&mut self) -> (r: Vec<EffectIntent>)
        ensures
            r@ == old(self).list(),
            final(self).list() == Seq::<EffectIntent>::empty(),
    {
        let mut out: Vec<EffectIntent> = Vec::new();
        std::mem::swap(&mut out, &mut self.intents);
        out
    }

    pub fn is_empty(&self) -> (r: bool)
        ensures
            r == (self.list().len() == 0),
    {
        self.intents.len() == 0
    }

    pub fn as_slice(&self) -> (r: &[EffectIntent])
        ensures
            r@ == self.list(),
    {
        self.intents.as_slice()
    }

    pub fn set(&mut self, intents: Vec<EffectIntent>)
        ensures
            final(self).list() == intents@,
    {
        self.intents = intents;
    }
}

/// What rewrites the params of effects before they are checked.
pub trait EffectParamPreprocessor {
    fn preprocess(&self, source: &EffectSource, effect: &str, params_cbor: Vec<u8>) -> Result<
        Vec<u8>,
        KernelError,
    >;
}

/// What brings params into the form that the schema of an effect asks for, and makes intents.
pub trait EffectCodec {
    /// The canonical form of params under the schema of an effect.
    fn normalize_params(&self, effect: &str, params_cbor: &[u8]) -> Result<Vec<u8>, String>;

    /// The params with references to secrets in their canonical form.
    fn normalize_secrets(&self, params_cbor: &[u8]) -> Result<Vec<u8>, String>;

    /// The intent for an effect, with its digest.
    fn make_intent(
        &self,
        effect: &str,
        identity: Option<EffectRuntimeIdentity>,
        params_cbor: Vec<u8>,
        idempotency_key: [u8; 32],
    ) -> Result<EffectIntent, String>;
}

/// Whether an error is that of the manager, with a text.
pub open spec fn is_manager_error(e: KernelError, text: Seq<char>) -> bool {
    e matches KernelError::EffectManager(m) && m@ == text
}

/// Whether a result is what the preprocessor makes of the params of an effect; without one they
/// stay as they are.
pub open spec fn params_preprocessed<P: EffectParamPreprocessor>(
    r: Result<Vec<u8>, KernelError>,
    preprocessor: Option<P>,
    source: EffectSource,
    effect: Seq<char>,
    params: Seq<u8>,
) -> bool {
    match preprocessor {
        None => r is Ok && r->Ok_0@ == params,
        Some(p) => exists|x: &str, b: Vec<u8>|
            x@ == effect && b@ == params && #[trigger] call_ensures(
                P::preprocess,
                (&p, &source, x, b),
                r,
            ),
    }
}

/// Whether a result is the params of an effect in the form that its schema asks for, with their
/// references to secrets in canonical form, as the codec says of them. A blob's are completed first.
pub open spec fn params_normalized<C: EffectCodec>(
    r: Result<Vec<u8>, KernelError>,
    codec: &C,
    effect: Seq<char>,
    params: Seq<u8>,
) -> bool {
    if effect == "blob.put"@ {
        match blob::blob_put_normal(params) {
            Ok(b) => params_fitted(r, codec, effect, b),
            Err(t) => r is Err && is_manager_error(r->Err_0, t),
        }
    } else {
        params_fitted(r, codec, effect, params)
    }
}

pub open spec fn params_fitted<C: EffectCodec>(
    r: Result<Vec<u8>, KernelError>,
    codec: &C,
    effect: Seq<char>,
    params: Seq<u8>,
) -> bool {
    exists|x: &str, b: &[u8], told: Result<Vec<u8>, String>|
        x@ == effect && b@ == params && #[trigger] call_ensures(
            C::normalize_params,
            (codec, x, b),
            told,
        ) && match told {
            Err(t) => r is Err && is_manager_error(r->Err_0, t@),
            Ok(n) => secrets_normalized(r, codec, n@),
        }
}

pub open spec fn secrets_normalized<C: EffectCodec>(
    r: Result<Vec<u8>, KernelError>,
    codec: &C,
    params: Seq<u8>,
) -> bool {
    exists|b: &[u8], told: Result<Vec<u8>, String>|
        b@ == params && #[trigger] call_ensures(C::normalize_secrets, (codec, b), told)
            && match told {
            Err(t) => r is Err && (r->Err_0 matches KernelError::SecretResolution(m) && m@ == t@),
            Ok(n) => r == Ok::<Vec<u8>, KernelError>(n),
        }
}

/// Whether a result is the canonical params of an effect.
pub open spec fn params_canonical<P: EffectParamPreprocessor, C: EffectCodec>(
    r: Result<Vec<u8>, KernelError>,
    preprocessor: Option<P>,
    codec: &C,
    source: EffectSource,
    effect: Seq<char>,
    params: Seq<u8>,
) -> bool {
    exists|given: Result<Vec<u8>, KernelError>| #[trigger]
        params_preprocessed(given, preprocessor, source, effect, params) && match given {
            Err(e) => r == Err::<Vec<u8>, KernelError>(e),
            Ok(b) => params_normalized(r, codec, effect, b@),
        }
}

/// Whether a result is the intent that the codec makes of canonical params.
pub open spec fn intent_made<C: EffectCodec>(
    r: Result<EffectIntent, KernelError>,
    codec: &C,
    effect: Seq<char>,
    identity: Option<EffectRuntimeIdentity>,
    params: Vec<u8>,
    key: [u8; 32],
) -> bool {
    exists|x: &str, told: Result<EffectIntent, String>|
        x@ == effect && #[trigger] call_ensures(
            C::make_intent,
            (codec, x, identity, params, key),
            told,
        ) && match told {
            Ok(i) => r == Ok::<EffectIntent, KernelError>(i),
            Err(t) => r is Err && is_manager_error(r->Err_0, t@),
        }
}

/// Whether a result is the intent for an effect. One that is not known is refused; the params are
/// brought into canonical form, and the intent is made of them.
pub open spec fn enqueued<P: EffectParamPreprocessor, C: EffectCodec>(
    r: Result<EffectIntent, KernelError>,
    known: bool,
    preprocessor: Option<P>,
    codec: &C,
    source: EffectSource,
    effect: Seq<char>,
    identity: Option<EffectRuntimeIdentity>,
    params: Seq<u8>,
    key: [u8; 32],
) -> bool {
    if !known {
        r is Err && (r->Err_0 matches KernelError::UnsupportedEffect(m) && m@ == effect)
    } else {
        exists|canonical: Result<Vec<u8>, KernelError>| #[trigger]
            params_canonical(canonical, preprocessor, codec, source, effect, params)
                && match canonical {
                Err(e) => r == Err::<EffectIntent, KernelError>(e),
                Ok(b) => intent_made(r, codec, effect, identity, b, key),
            }
    }
}

/// The key of a request: the bytes given, which must be those of a digest, or zeros.
pub open spec fn normal_key(value: Option<Seq<u8>>) -> Result<Seq<u8>, Seq<char>> {
    match value {
        None => Ok(Seq::new(32, |i: int| 0u8)),
        Some(b) => if b.len() == 32 {
            Ok(b)
        } else {
            Err("expected 32 bytes, got "@ + decimal(b.len()))
        },
    }
}

pub open spec fn key_view(v: Option<Vec<u8>>) -> Option<Seq<u8>> {
    match v {
        Some(b) => Some(b@),
        None => None,
    }
}

/// The key of a request.
pub fn normalize_idempotency_key(value: &Option<Vec<u8>>) -> (r: Result<[u8; 32], KernelError>)
    ensures
        match (r, normal_key(key_view(*value))) {
            (Ok(k), Ok(s)) => k@ == s,
            (Err(e), Err(t)) => e matches KernelError::IdempotencyKeyInvalid(m) && m@ == t,
            _ => false,
        },
{
    match value {
        None => {
            let k = [0u8;32];
            assert(k@ =~= Seq::new(32, |i: int| 0u8));
            Ok(k)
        },
        Some(bytes) => match ContentHash::from_bytes(bytes.as_slice()) {
            Ok(h) => Ok(*h.as_bytes()),
            Err(n) => {
                let count = decimal_text(n as u64);
                Err(
                    KernelError::IdempotencyKeyInvalid(
                        join2("expected 32 bytes, got ", count.as_str()),
                    ),
                )
            },
        },
    }
}

/// What checks and queues effects.
pub struct EffectManager<P, R> {
    queue: EffectQueue,
    effect_catalog: NameMap<String>,
    param_preprocessor: Option<P>,
    logical_now_ns: u64,
    secret_catalog: Option<SecretCatalog>,
    secret_resolver: Option<R>,
}

/// The params of an intent as they are executed: where secrets are at hand, filled in.
pub open spec fn prepared<R: SecretResolver>(
    params: Seq<u8>,
    catalog: Option<SecretCatalog>,
    resolver: Option<R>,
) -> Result<Seq<u8>, SecretFault> {
    match (catalog, resolver) {
        (Some(c), Some(r)) => params_injected(params, c@, r),
        _ => Ok(params),
    }
}

/// The first `n` intents as they are executed, or the first fault.
pub open spec fn all_prepared<R: SecretResolver>(
    intents: Seq<IntentView>,
    catalog: Option<SecretCatalog>,
    resolver: Option<R>,
    n: nat,
) -> Result<Seq<IntentView>, SecretFault>
    decreases n,
{
    if n == 0 || n > intents.len() {
        Ok(Seq::empty())
    } else {
        match all_prepared(intents, catalog, resolver, (n - 1) as nat) {
            Err(f) => Err(f),
            Ok(done) => match prepared(intents[n - 1].params, catalog, resolver) {
                Err(f) => Err(f),
                Ok(params) => Ok(done.push(IntentView { params, ..intents[n - 1] })),
            },
        }
    }
}

proof fn lemma_prepared_fault<R: SecretResolver>(
    intents: Seq<IntentView>,
    catalog: Option<SecretCatalog>,
    resolver: Option<R>,
    n: nat,
    k: nat,
)
    requires
        n <= k <= intents.len(),
        all_prepared(intents, catalog, resolver, n) is Err,
    ensures
        all_prepared(intents, catalog, resolver, k) == all_prepared(intents, catalog, resolver, n),
    decreases k,
{
    if n < k {
        lemma_prepared_fault(intents, catalog, resolver, n, (k - 1) as nat);
    }
}

impl<P: EffectParamPreprocessor, R: SecretResolver> EffectManager<P, R> {
    /// The intents that wait.
    pub closed spec fn waiting(&self) -> Seq<EffectIntent> {
        self.queue.list()
    }

    /// Whether an effect is known.
    pub closed spec fn knows(&self, effect: Seq<char>) -> bool {
        self.effect_catalog.map().contains_key(effect)
    }

    /// What rewrites params.
    pub closed spec fn preprocessor(&self) -> Option<P> {
        self.param_preprocessor
    }

    pub closed spec fn now(&self) -> u64 {
        self.logical_now_ns
    }

    pub closed spec fn secrets(&self) -> Option<SecretCatalog> {
        self.secret_catalog
    }

    pub closed spec fn resolver(&self) -> Option<R> {
        self.secret_resolver
    }

    /// Whether two managers differ in their queues at most.
    pub open spec fn same_setup(&self, other: &Self) -> bool {
        &&& forall|effect: Seq<char>| self.knows(effect) == other.knows(effect)
        &&& self.preprocessor() == other.preprocessor()
        &&& self.now() == other.now()
        &&& self.secrets() == other.secrets()
        &&& self.resolver() == other.resolver()
    }

    /// A manager for the effects of a catalog, which names the schema of the params of each.
    pub fn new(
        effect_catalog: NameMap<String>,
        param_preprocessor: Option<P>,
        secret_catalog: Option<SecretCatalog>,
        secret_resolver: Option<R>,
    ) -> (r: Self)
        ensures
            r.waiting() == Seq::<EffectIntent>::empty(),
            forall|effect: Seq<char>| #[trigger]
                r.knows(effect) == effect_catalog.map().contains_key(effect),
            r.preprocessor() == param_preprocessor,
            r.now() == 0,
            r.secrets() == secret_catalog,
            r.resolver() == secret_resolver,
    {
        EffectManager {
            queue: EffectQueue::new(),
            effect_catalog,
            param_preprocessor,
            logical_now_ns: 0,
            secret_catalog,
            secret_resolver,
        }
    }

    fn canonicalize_effect_params<C: EffectCodec>(
        &self,
        source: &EffectSource,
        effect: &str,
        params_cbor: Vec<u8>,
        codec: &C,
    ) -> (r: Result<Vec<u8>, KernelError>)
        ensures
            params_canonical(r, self.preprocessor(), codec, *source, effect@, params_cbor@),
    {
        let preprocessed = match &self.param_preprocessor {
            Some(p) => {
                let told = p.preprocess(source, effect, params_cbor);
                assert(call_ensures(P::preprocess, (p, source, effect, params_cbor), told));
                told
            },
            None => Ok(params_cbor),
        };
        let ghost given = preprocessed;
        assert(params_preprocessed(
            given,
            self.preprocessor(),
            *source,
            effect@,
            params_cbor@,
        ));
        let ready = match preprocessed {
            Ok(b) => b,
            Err(e) => {
                return Err(e);
            },
        };
        let fit = if str_eq(effect, "blob.put") {
            match blob::normalize_blob_put_params(ready.as_slice()) {
                Ok(b) => b,
                Err(t) => {
                    return Err(KernelError::EffectManager(t));
                },
            }
        } else {
            ready
        };
        let r = Self::fit_params(effect, fit.as_slice(), codec);
        assert(params_normalized(r, codec, effect@, given->Ok_0@));
        r
    }

    fn fit_params<C: EffectCodec>(effect: &str, params_cbor: &[u8], codec: &C) -> (r: Result<
        Vec<u8>,
        KernelError,
    >)
        ensures
            params_fitted(r, codec, effect@, params_cbor@),
    {
        let normalized = codec.normalize_params(effect, params_cbor);
        assert(call_ensures(C::normalize_params, (codec, effect, params_cbor), normalized));
        let ghost told = normalized;
        let canonical = match normalized {
            Ok(b) => b,
            Err(t) => {
                return Err(KernelError::EffectManager(t));
            },
        };
        let shown = canonical.as_slice();
        let tidied = codec.normalize_secrets(shown);
        assert(call_ensures(C::normalize_secrets, (codec, shown), tidied));
        let r = match tidied {
            Ok(b) => Ok(b),
            Err(t) => Err(KernelError::SecretResolution(t)),
        };
        assert(secrets_normalized(r, codec, told->Ok_0@));
        r
    }

    fn enqueue_authorized_effect<C: EffectCodec>(
        &self,
        source: &EffectSource,
        effect: &str,
        effect_identity: Option<EffectRuntimeIdentity>,
        params_cbor: Vec<u8>,
        idempotency_key: [u8; 32],
        codec: &C,
    ) -> (r: Result<EffectIntent, KernelError>)
        ensures
            enqueued(
                r,
                self.knows(effect@),
                self.preprocessor(),
                codec,
                *source,
                effect@,
                effect_identity,
                params_cbor@,
                idempotency_key,
            ),
    {
        if !self.effect_catalog.contains_key(effect) {
            return Err(KernelError::UnsupportedEffect(effect.to_owned()));
        }
        let canonical = self.canonicalize_effect_params(source, effect, params_cbor, codec);
        let ghost found = canonical;
        assert(params_canonical(
            found,
            self.preprocessor(),
            codec,
            *source,
            effect@,
            params_cbor@,
        ));
        let params = match canonical {
            Ok(b) => b,
            Err(e) => {
                return Err(e);
            },
        };
        let ghost fit = params;
        let made = codec.make_intent(effect, effect_identity, params, idempotency_key);
        assert(call_ensures(
            C::make_intent,
            (codec, effect, effect_identity, fit, idempotency_key),
            made,
        ));
        let r = match made {
            Ok(i) => Ok(i),
            Err(t) => Err(KernelError::EffectManager(t)),
        };
        assert(intent_made(r, codec, effect@, effect_identity, fit, idempotency_key));
        r
    }

    /// The intent for an effect of a workflow.
    pub fn enqueue_workflow_effect<C: EffectCodec>(
        &mut self,
        workflow_name: &str,
        effect: &WorkflowEffect,
        codec: &C,
    ) -> (r: Result<EffectIntent, KernelError>)
        ensures
            *final(self) == *old(self),
            workflow_outcome(
                r,
                old(self).knows(effect.kind@),
                old(self).preprocessor(),
                codec,
                workflow_name@,
                effect.kind@,
                None,
                *effect,
            ),
    {
        self.enqueue_workflow_effect_authorized(workflow_name, effect, codec)
    }

    /// The intent for an effect of a workflow.
    pub fn enqueue_workflow_effect_authorized<C: EffectCodec>(
        &mut self,
        workflow_name: &str,
        effect: &WorkflowEffect,
        codec: &C,
    ) -> (r: Result<EffectIntent, KernelError>)
        ensures
            *final(self) == *old(self),
            workflow_outcome(
                r,
                old(self).knows(effect.kind@),
                old(self).preprocessor(),
                codec,
                workflow_name@,
                effect.kind@,
                None,
                *effect,
            ),
    {
        let source = EffectSource::Workflow { name: workflow_name.to_owned() };
        let key = match normalize_idempotency_key(&effect.idempotency_key) {
            Ok(k) => k,
            Err(e) => {
                return Err(e);
            },
        };
        self.enqueue_authorized_effect(
            &source,
            effect.kind.as_str(),
            None,
            clone_bytes(&effect.params_cbor),
            key,
            codec,
        )
    }

    /// The intent for an effect of a workflow whose executor is known. The name of the executor's
    /// effect counts.
    pub fn enqueue_workflow_effect_with_identity<C: EffectCodec>(
        &mut self,
        workflow_name: &str,
        effect: &WorkflowEffect,
        identity: EffectRuntimeIdentity,
        codec: &C,
    ) -> (r: Result<EffectIntent, KernelError>)
        ensures
            *final(self) == *old(self),
            workflow_outcome(
                r,
                old(self).knows(identity.effect_name@),
                old(self).preprocessor(),
                codec,
                workflow_name@,
                identity.effect_name@,
                Some(identity),
                *effect,
            ),
    {
        let source = EffectSource::Workflow { name: workflow_name.to_owned() };
        let key = match normalize_idempotency_key(&effect.idempotency_key) {
            Ok(k) => k,
            Err(e) => {
                return Err(e);
            },
        };
        let effect_name = identity.effect_name.clone();
        self.enqueue_authorized_effect(
            &source,
            effect_name.as_str(),
            Some(identity),
            clone_bytes(&effect.params_cbor),
            key,
            codec,
        )
    }

    /// The intent for an effect of a plan.
    pub fn enqueue_plan_effect<C: EffectCodec>(
        &mut self,
        plan_name: &str,
        effect: &str,
        params_cbor: Vec<u8>,
        idempotency_key: [u8; 32],
        codec: &C,
    ) -> (r: Result<EffectIntent, KernelError>)
        ensures
            *final(self) == *old(self),
            exists|source: EffectSource|
                source is Plan && source.origin() == plan_name@ && #[trigger] enqueued(
                    r,
                    old(self).knows(effect@),
                    old(self).preprocessor(),
                    codec,
                    source,
                    effect@,
                    None,
                    params_cbor@,
                    idempotency_key,
                ),
    {
        let source = EffectSource::Plan { name: plan_name.to_owned() };
        self.enqueue_authorized_effect(&source, effect, None, params_cbor, idempotency_key, codec)
    }

    pub fn queued(&self) -> (r: &[EffectIntent])
        ensures
            r@ == self.waiting(),
    {
        self.queue.as_slice()
    }

    pub fn has_pending(&self) -> (r: bool)
        ensures
            r == (self.waiting().len() > 0),
    {
        !self.queue.is_empty()
    }

    pub fn restore_queue(&mut self, intents: Vec<EffectIntent>)
        ensures
            final(self).waiting() == intents@,
            final(self).same_setup(old(self)),
    {
        self.queue.set(intents);
    }

    /// Takes out the intents that wait, with their secrets filled in. Where that fails the intents
    /// are gone.
    pub fn drain(&mut self) -> (r: Result<Vec<EffectIntent>, KernelError>)
        ensures
            final(self).waiting() == Seq::<EffectIntent>::empty(),
            final(self).same_setup(old(self)),
            match (
                r,
                all_prepared(
                    intents_view(old(self).waiting()),
                    old(self).secrets(),
                    old(self).resolver(),
                    old(self).waiting().len(),
                ),
            ) {
                (Ok(v), Ok(s)) => intents_view(v@) == s,
                (Err(e), Err(f)) => e matches KernelError::SecretResolution(m) && m@ == f.text(),
                _ => false,
            },
    {
        let ghost before = self.waiting();
        let ghost all = intents_view(before);
        let ghost setup = *self;
        let mut left = self.queue.drain();
        let mut out: Vec<EffectIntent> = Vec::new();
        let ghost total = left@.len();
        assert(intents_view(out@) =~= Seq::empty());
        assert(before.skip(0) =~= before);
        left = reversed(left);
        while left.len() > 0
            invariant
                total == before.len(),
                before == setup.waiting(),
                setup == *old(self),
                all == intents_view(before),
                left@.len() + out@.len() == total,
                forall|k: int|
                    0 <= k < left@.len() ==> (#[trigger] left@[k]) == before[total - 1 - k],
                all_prepared(all, setup.secrets(), setup.resolver(), out@.len()) == Ok::<
                    _,
                    SecretFault,
                >(intents_view(out@)),
                self.waiting() == Seq::<EffectIntent>::empty(),
                self.same_setup(&setup),
            decreases left@.len(),
        {
            let ghost n = out@.len();
            match left.pop() {
                None => {},
                Some(next) => {
                    let mut intent = next;
                    assert(intent == before[n as int]);
                    assert(all[n as int] == intent@);
                    match self.prepare_intent_for_execution(&mut intent) {
                        Ok(_) => {
                            let ghost was = out@;
                            out.push(intent);
                            assert(intents_view(out@) =~= intents_view(was).push(intent@));
                        },
                        Err(e) => {
                            proof {
                                lemma_prepared_fault(
                                    all,
                                    setup.secrets(),
                                    setup.resolver(),
                                    n + 1,
                                    all.len(),
                                );
                            }
                            return Err(e);
                        },
                    }
                },
            }
        }
        Ok(out)
    }

    pub fn secret_resolver(&self) -> (r: &Option<R>)
        ensures
            *r == self.resolver(),
    {
        &self.secret_resolver
    }

    pub fn logical_now_ns(&self) -> (r: u64)
        ensures
            r == self.now(),
    {
        self.logical_now_ns
    }

    /// Moves the clock on; it does not go back.
    pub fn update_logical_now_ns(&mut self, logical_now_ns: u64)
        ensures
            final(self).now() == if logical_now_ns > old(self).now() {
                logical_now_ns
            } else {
                old(self).now()
            },
            final(self).waiting() == old(self).waiting(),
            final(self).secrets() == old(self).secrets(),
            final(self).resolver() == old(self).resolver(),
            final(self).preprocessor() == old(self).preprocessor(),
            forall|effect: Seq<char>| #[trigger]
                final(self).knows(effect) == old(self).knows(effect),
    {
        if logical_now_ns > self.logical_now_ns {
            self.logical_now_ns = logical_now_ns;
        }
    }

    /// Fills the secrets into the params of an intent, where there are secrets.
    pub fn prepare_intent_for_execution(&self, intent: &mut EffectIntent) -> (r: Result<
        (),
        KernelError,
    >)
        ensures
            match (
                r,
                prepared(old(intent).params_cbor@, self.secrets(), self.resolver()),
            ) {
                (Ok(_), Ok(params)) => final(intent)@ == (IntentView { params, ..old(intent)@ }),
                (Err(e), Err(f)) => final(intent)@ == old(intent)@ && (e matches
                    KernelError::SecretResolution(m) && m@ == f.text()),
                _ => false,
            },
    {
        if let (Some(catalog), Some(resolver)) = (&self.secret_catalog, &self.secret_resolver) {
            match inject_secrets_in_params(intent.params_cbor.as_slice(), catalog, resolver) {
                Ok(b) => {
                    intent.params_cbor = b;
                },
                Err(e) => {
                    return Err(KernelError::SecretResolution(e.message()));
                },
            }
        }
        Ok(())
    }
}

/// What a request of a workflow comes to: a bad key is refused first, and then the intent follows
/// from what was said on the way.
pub open spec fn workflow_outcome<P: EffectParamPreprocessor, C: EffectCodec>(
    r: Result<EffectIntent, KernelError>,
    known: bool,
    preprocessor: Option<P>,
    codec: &C,
    workflow: Seq<char>,
    effect_name: Seq<char>,
    identity: Option<EffectRuntimeIdentity>,
    effect: WorkflowEffect,
) -> bool {
    match normal_key(key_view(effect.idempotency_key)) {
        Err(t) => r matches Err(KernelError::IdempotencyKeyInvalid(m)) && m@ == t,
        Ok(k) => exists|source: EffectSource, key: [u8; 32]|
            source is Workflow && source.origin() == workflow && key@ == k && #[trigger] enqueued(
                r,
                known,
                preprocessor,
                codec,
                source,
                effect_name,
                identity,
                effect.params_cbor@,
                key,
            ),
    }
}

fn reversed(v: Vec<EffectIntent>) -> (r: Vec<EffectIntent>)
    ensures
        r@ == v@.reverse(),
{
    let mut from = v;
    let ghost all = from@;
    let mut out: Vec<EffectIntent> = Vec::new();
    while from.len() > 0
        invariant
            from@ == all.take(from@.len() as int),
            from@.len() <= all.len(),
            out@ == all.reverse().take(all.len() - from@.len()),
        decreases from@.len(),
    {
        let ghost n = from@.len();
        match from.pop() {
            Some(x) => {
                out.push(x);
                assert(x == all[n - 1]);
                assert(all.reverse().take(all.len() - n + 1) =~= all.reverse().take(
                    all.len() - n,
                ).push(all[n - 1]));
                assert(from@ =~= all.take(n - 1));
            },
            None => {},
        }
    }
    assert(all.reverse().take(all.len() as int) =~= all.reverse());
    out
}

/// An intent is made only of an effect that is known, under that name, with the given key and of
/// params that were brought into the form of its schema and whose secrets were brought into theirs,
/// one after the other. An effect that is not known is refused by its name.
pub proof fn lemma_intent_is_made_of_normal_params<P: EffectParamPreprocessor, C: EffectCodec>(
    r: Result<EffectIntent, KernelError>,
    known: bool,
    preprocessor: Option<P>,
    codec: &C,
    source: EffectSource,
    effect: Seq<char>,
    identity: Option<EffectRuntimeIdentity>,
    params: Seq<u8>,
    key: [u8; 32],
)
    requires
        enqueued(r, known, preprocessor, codec, source, effect, identity, params, key),
    ensures
        !known ==> (r matches Err(KernelError::UnsupportedEffect(m)) && m@ == effect),
        r matches Ok(i) ==> known && exists|
            x: &str,
            y: &str,
            b: &[u8],
            n: Vec<u8>,
            c: &[u8],
            m: Vec<u8>,
        |
            x@ == effect && y@ == effect && c@ == n@ && #[trigger] call_ensures(
                C::normalize_params,
                (codec, x, b),
                Ok::<Vec<u8>, String>(n),
            ) && #[trigger] call_ensures(
                C::normalize_secrets,
                (codec, c),
                Ok::<Vec<u8>, String>(m),
            ) && #[trigger] call_ensures(
                C::make_intent,
                (codec, y, identity, m, key),
                Ok::<EffectIntent, String>(i),
            ) && (preprocessor is None && effect != "blob.put"@ ==> b@ == params),
        r matches Ok(i) ==> (preprocessor matches Some(p) ==> exists|
            x: &str,
            b: Vec<u8>,
            d: Vec<u8>,
        |
            x@ == effect && b@ == params && #[trigger] call_ensures(
                P::preprocess,
                (&p, &source, x, b),
                Ok::<Vec<u8>, KernelError>(d),
            )),
{
    if let Ok(i) = r {
        let canonical = choose|canonical: Result<Vec<u8>, KernelError>| #[trigger]
            params_canonical(canonical, preprocessor, codec, source, effect, params)
                && match canonical {
                Err(e) => r == Err::<EffectIntent, KernelError>(e),
                Ok(b) => intent_made(r, codec, effect, identity, b, key),
            };
        let m = canonical->Ok_0;
        let given = choose|given: Result<Vec<u8>, KernelError>| #[trigger]
            params_preprocessed(given, preprocessor, source, effect, params) && match given {
                Err(e) => canonical == Err::<Vec<u8>, KernelError>(e),
                Ok(b) => params_normalized(canonical, codec, effect, b@),
            };
        let fit: Seq<u8> = if effect == "blob.put"@ {
            blob::blob_put_normal(given->Ok_0@)->Ok_0
        } else {
            given->Ok_0@
        };
        assert(params_fitted(canonical, codec, effect, fit));
        let (x, b, told) = choose|x: &str, b: &[u8], told: Result<Vec<u8>, String>|
            x@ == effect && b@ == fit && #[trigger] call_ensures(
                C::normalize_params,
                (codec, x, b),
                told,
            ) && match told {
                Err(t) => canonical is Err && is_manager_error(canonical->Err_0, t@),
                Ok(n) => secrets_normalized(canonical, codec, n@),
            };
        let n = told->Ok_0;
        let (c, tidied) = choose|c: &[u8], told: Result<Vec<u8>, String>|
            c@ == n@ && #[trigger] call_ensures(C::normalize_secrets, (codec, c), told)
                && match told {
                Err(t) => canonical is Err && (canonical->Err_0 matches
                    KernelError::SecretResolution(m) && m@ == t@),
                Ok(n) => canonical == Ok::<Vec<u8>, KernelError>(n),
            };
        assert(call_ensures(C::normalize_params, (codec, x, b), Ok::<Vec<u8>, String>(n)));
        assert(call_ensures(C::normalize_secrets, (codec, c), Ok::<Vec<u8>, String>(m)));
    }
}

/// A request of a workflow is refused where its key is not 32 bytes long. A key that is not given
/// is that of zeros.
pub proof fn lemma_key_is_a_digest(value: Option<Seq<u8>>)
    ensures
        value is None ==> (normal_key(value) matches Ok(k) && k.len() == 32 && forall|i: int|
            0 <= i < 32 ==> #[trigger] k[i] == 0),
        value matches Some(b) ==> normal_key(value) == if b.len() == 32 {
            Ok::<Seq<u8>, Seq<char>>(b)
        } else {
            Err("expected 32 bytes, got "@ + decimal(b.len()))
        },
{
}

/// The intents that are taken out are those that waited, in their order; of each only the params
/// may differ, which have their secrets filled in. Without secrets at hand nothing differs.
pub proof fn lemma_drained_in_order<R: SecretResolver>(
    intents: Seq<IntentView>,
    catalog: Option<SecretCatalog>,
    resolver: Option<R>,
    n: nat,
)
    requires
        n <= intents.len(),
    ensures
        all_prepared(intents, catalog, resolver, n) matches Ok(out) ==> out.len() == n && forall|
            i: int,
        |
            0 <= i < n ==> {
                &&& (#[trigger] out[i]).kind == intents[i].kind
                &&& out[i].cap_name == intents[i].cap_name
                &&& out[i].identity == intents[i].identity
                &&& out[i].idempotency_key == intents[i].idempotency_key
                &&& out[i].intent_hash == intents[i].intent_hash
                &&& match (catalog, resolver) {
                    (Some(c), Some(r)) => params_injected(intents[i].params, c@, r) == Ok::<
                        Seq<u8>,
                        SecretFault,
                    >(out[i].params),
                    _ => out[i].params == intents[i].params,
                }
            },
        all_prepared(intents, catalog, resolver, n) is Err <==> catalog is Some && resolver is Some
            && exists|i: int|
            0 <= i < n && params_injected((#[trigger] intents[i]).params, catalog->0@, resolver->0)
                is Err,
    decreases n,
{
    if n > 0 {
        lemma_drained_in_order(intents, catalog, resolver, (n - 1) as nat);
        if let Ok(out) = all_prepared(intents, catalog, resolver, n) {
            let before = all_prepared(intents, catalog, resolver, (n - 1) as nat)->Ok_0;
            assert forall|i: int| 0 <= i < n - 1 implies #[trigger] out[i] == before[i] by {}
        } else {
            if all_prepared(intents, catalog, resolver, (n - 1) as nat) is Ok {
                assert(params_injected(intents[n - 1].params, catalog->0@, resolver->0) is Err);
            }
        }
    }
}

/// An effect of a workflow becomes an intent on behalf of that workflow, with the key that it names,
/// which must be 32 bytes long, or else with the key of zeros.
pub proof fn lemma_workflow_effect_is_enqueued<P: EffectParamPreprocessor, C: EffectCodec>(
    r: Result<EffectIntent, KernelError>,
    known: bool,
    preprocessor: Option<P>,
    codec: &C,
    workflow: Seq<char>,
    effect_name: Seq<char>,
    identity: Option<EffectRuntimeIdentity>,
    effect: WorkflowEffect,
)
    requires
        workflow_outcome(
            r,
            known,
            preprocessor,
            codec,
            workflow,
            effect_name,
            identity,
            effect,
        ),
    ensures
        effect.idempotency_key matches Some(k) ==> k@.len() != 32 ==> r is Err,
        r is Ok ==> known,
        r is Ok ==> exists|source: EffectSource, key: [u8; 32]|
            {
                &&& #[trigger] enqueued(
                    r,
                    known,
                    preprocessor,
                    codec,
                    source,
                    effect_name,
                    identity,
                    effect.params_cbor@,
                    key,
                )
                &&& source matches EffectSource::Workflow { .. }
                &&& source.origin() == workflow
                &&& effect.idempotency_key matches Some(k) ==> key@ == k@
                &&& effect.idempotency_key is None ==> forall|i: int| 0 <= i < 32 ==> key@[i] == 0u8
            },
{
}

} // verus!
