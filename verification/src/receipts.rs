//! Receipts of effects, and the events that they raise.
use vstd::prelude::*;

use crate::cbor::clone_bytes;
use crate::effects::blob::BlobPutParams;
use crate::error::KernelError;
use crate::hash::{hash_text, sha256, ContentHash, HashRef};
use crate::plan::DomainEvent;
use crate::text::str_eq;

verus! {

/// The schema of the event that carries a receipt to a workflow.
pub const SYS_EFFECT_RECEIPT_ENVELOPE_SCHEMA: &'static str = "sys/EffectReceiptEnvelope@1";

pub const SYS_TIMER_FIRED_SCHEMA: &'static str = "sys/TimerFired@1";

pub const SYS_BLOB_PUT_RESULT_SCHEMA: &'static str = "sys/BlobPutResult@1";

pub const SYS_BLOB_GET_RESULT_SCHEMA: &'static str = "sys/BlobGetResult@1";

/// How an effect ended.
#[derive(Clone, Copy, Debug, PartialEq, Eq, Structural)]
pub enum ReceiptStatus {
    Success,
    Error,
    Timeout,
}

/// What an adapter reports of an effect.
#[derive(Debug)]
pub struct EffectReceipt {
    pub intent_hash: [u8; 32],
    pub adapter_id: String,
    pub status: ReceiptStatus,
    pub payload_cbor: Vec<u8>,
    pub cost_cents: Option<u64>,
    pub signature: Vec<u8>,
}

/// An effect that waits for its receipt, and where it came from.
#[derive(Debug, PartialEq, Eq)]
pub struct ReducerEffectContext {
    pub origin_module_id: String,
    pub origin_instance_key: Option<Vec<u8>>,
    pub effect_kind: String,
    pub params_cbor: Vec<u8>,
    pub intent_id: [u8; 32],
    pub emitted_at_seq: u64,
    pub module_version: Option<String>,
}

impl ReducerEffectContext {
    pub fn new(
        origin_module_id: String,
        origin_instance_key: Option<Vec<u8>>,
        effect_kind: String,
        params_cbor: Vec<u8>,
        intent_id: [u8; 32],
        emitted_at_seq: u64,
        module_version: Option<String>,
    ) -> (r: Self)
        ensures
            r == (ReducerEffectContext {
                origin_module_id,
                origin_instance_key,
                effect_kind,
                params_cbor,
                intent_id,
                emitted_at_seq,
                module_version,
            }),
    {
        ReducerEffectContext {
            origin_module_id,
            origin_instance_key,
            effect_kind,
            params_cbor,
            intent_id,
            emitted_at_seq,
            module_version,
        }
    }
}

pub open spec fn bytes_option(b: Option<Vec<u8>>) -> Option<Seq<u8>> {
    match b {
        Some(v) => Some(v@),
        None => None,
    }
}

/// A copy of bytes that may be missing.
pub fn copy_bytes_option(b: &Option<Vec<u8>>) -> (r: Option<Vec<u8>>)
    ensures
        bytes_option(r) == bytes_option(*b),
{
    match b {
        Some(v) => Some(clone_bytes(v)),
        None => None,
    }
}

/// A receipt as it is handed to the workflow that asked for the effect.
#[derive(Debug)]
pub struct WorkflowReceiptEnvelope {
    pub origin_module_id: String,
    pub origin_instance_key: Option<Vec<u8>>,
    pub intent_id: String,
    pub effect_kind: String,
    pub params_hash: Option<String>,
    pub receipt_payload: Vec<u8>,
    pub status: ReceiptStatus,
    pub emitted_at_seq: u64,
    pub adapter_id: String,
    pub cost_cents: Option<u64>,
    pub signature: Vec<u8>,
}

/// Whether an envelope carries a receipt to the origin of an effect.
pub open spec fn is_envelope(
    e: WorkflowReceiptEnvelope,
    ctx: ReducerEffectContext,
    receipt: EffectReceipt,
) -> bool {
    &&& e.origin_module_id@ == ctx.origin_module_id@
    &&& bytes_option(e.origin_instance_key) == bytes_option(ctx.origin_instance_key)
    &&& e.intent_id@ == hash_text(ctx.intent_id@)
    &&& e.effect_kind@ == ctx.effect_kind@
    &&& e.params_hash matches Some(h) && h@ == hash_text(sha256(ctx.params_cbor@))
    &&& e.receipt_payload@ == receipt.payload_cbor@
    &&& e.status == receipt.status
    &&& e.emitted_at_seq == ctx.emitted_at_seq
    &&& e.adapter_id@ == receipt.adapter_id@
    &&& e.cost_cents == receipt.cost_cents
    &&& e.signature@ == receipt.signature@
}

fn hash_to_hex(bytes: [u8; 32]) -> (r: String)
    ensures
        r@ == hash_text(bytes@),
{
    ContentHash::from_array(bytes).to_hex()
}

/// The envelope of a receipt.
pub fn workflow_envelope(ctx: &ReducerEffectContext, receipt: &EffectReceipt) -> (r:
    WorkflowReceiptEnvelope)
    ensures
        is_envelope(r, *ctx, *receipt),
{
    WorkflowReceiptEnvelope {
        origin_module_id: ctx.origin_module_id.clone(),
        origin_instance_key: copy_bytes_option(&ctx.origin_instance_key),
        intent_id: hash_to_hex(ctx.intent_id),
        effect_kind: ctx.effect_kind.clone(),
        params_hash: Some(ContentHash::of_bytes(ctx.params_cbor.as_slice()).to_hex()),
        receipt_payload: clone_bytes(&receipt.payload_cbor),
        status: receipt.status,
        emitted_at_seq: ctx.emitted_at_seq,
        adapter_id: receipt.adapter_id.clone(),
        cost_cents: receipt.cost_cents,
        signature: clone_bytes(&receipt.signature),
    }
}

/// The params of the effect that sets a timer.
#[derive(Debug)]
pub struct TimerSetParams {
    pub deliver_at_ns: u64,
    pub key: Option<String>,
}

#[derive(Debug)]
pub struct TimerSetReceipt {
    pub delivered_at_ns: u64,
    pub key: Option<String>,
}

#[derive(Debug)]
pub struct BlobPutReceipt {
    pub blob_ref: HashRef,
    pub edge_ref: HashRef,
    pub size: u64,
}

#[derive(Debug)]
pub struct BlobGetParams {
    pub blob_ref: HashRef,
}

#[derive(Debug)]
pub struct BlobGetReceipt {
    pub blob_ref: HashRef,
    pub size: u64,
    pub bytes: Vec<u8>,
}

/// A receipt with what was asked for and what came of it.
#[derive(Debug)]
pub struct TypedReceiptEvent<P, Q> {
    pub intent_hash: String,
    pub reducer: String,
    pub effect_kind: String,
    pub adapter_id: String,
    pub status: ReceiptStatus,
    pub requested: P,
    pub receipt: Q,
    pub cost_cents: Option<u64>,
    pub signature: Vec<u8>,
}

/// Whether an event carries a receipt, with what was asked for and what came of it.
pub open spec fn is_typed_event<P, Q>(
    e: TypedReceiptEvent<P, Q>,
    ctx: ReducerEffectContext,
    receipt: EffectReceipt,
    requested: P,
    outcome: Q,
) -> bool {
    &&& e.intent_hash@ == hash_text(ctx.intent_id@)
    &&& e.reducer@ == ctx.origin_module_id@
    &&& e.effect_kind@ == ctx.effect_kind@
    &&& e.adapter_id@ == receipt.adapter_id@
    &&& e.status == receipt.status
    &&& e.requested == requested
    &&& e.receipt == outcome
    &&& e.cost_cents == receipt.cost_cents
    &&& e.signature@ == receipt.signature@
}

/// The event of a receipt, once what was asked for and what came of it have been read. What cannot
/// be read is refused; what was asked for is looked at first.
pub fn build_typed_event<P, Q>(
    ctx: &ReducerEffectContext,
    receipt: &EffectReceipt,
    requested: Result<P, String>,
    outcome: Result<Q, String>,
) -> (r: Result<TypedReceiptEvent<P, Q>, KernelError>)
    ensures
        match (requested, outcome) {
            (Err(t), _) => r matches Err(KernelError::ReceiptDecode(m)) && m@ == t@,
            (Ok(_), Err(t)) => r matches Err(KernelError::ReceiptDecode(m)) && m@ == t@,
            (Ok(p), Ok(q)) => r matches Ok(e) && is_typed_event(e, *ctx, *receipt, p, q),
        },
{
    match requested {
        Err(t) => Err(KernelError::ReceiptDecode(t)),
        Ok(p) => match outcome {
            Err(t) => Err(KernelError::ReceiptDecode(t)),
            Ok(q) => Ok(
                TypedReceiptEvent {
                    intent_hash: hash_to_hex(ctx.intent_id),
                    reducer: ctx.origin_module_id.clone(),
                    effect_kind: ctx.effect_kind.clone(),
                    adapter_id: receipt.adapter_id.clone(),
                    status: receipt.status,
                    requested: p,
                    receipt: q,
                    cost_cents: receipt.cost_cents,
                    signature: clone_bytes(&receipt.signature),
                },
            ),
        },
    }
}

/// The events of receipts with a type of their own.
#[derive(Debug)]
pub enum TypedReceipt {
    Timer(TypedReceiptEvent<TimerSetParams, TimerSetReceipt>),
    BlobPut(TypedReceiptEvent<BlobPutParams, BlobPutReceipt>),
    BlobGet(TypedReceiptEvent<BlobGetParams, BlobGetReceipt>),
}

/// What reads the params and receipts of effects and writes events.
pub trait ReceiptCodec {
    fn timer_params(&self, bytes: &[u8]) -> Result<TimerSetParams, String>;

    fn timer_receipt(&self, bytes: &[u8]) -> Result<TimerSetReceipt, String>;

    fn blob_put_params(&self, bytes: &[u8]) -> Result<BlobPutParams, String>;

    fn blob_put_receipt(&self, bytes: &[u8]) -> Result<BlobPutReceipt, String>;

    fn blob_get_params(&self, bytes: &[u8]) -> Result<BlobGetParams, String>;

    fn blob_get_receipt(&self, bytes: &[u8]) -> Result<BlobGetReceipt, String>;

    fn envelope(&self, envelope: &WorkflowReceiptEnvelope) -> Result<Vec<u8>, String>;

    fn typed(&self, event: &TypedReceipt) -> Result<Vec<u8>, String>;
}

/// Whether a result is the event of a schema whose value was written, or says why it was not.
pub open spec fn is_written_event(
    r: Result<DomainEvent, KernelError>,
    schema: Seq<char>,
    encoded: Result<Vec<u8>, String>,
) -> bool {
    match encoded {
        Ok(b) => r matches Ok(e) && e.schema@ == schema && e.value == b && e.key is None,
        Err(t) => r matches Err(KernelError::ReceiptDecode(m)) && m@ == t@,
    }
}

/// An event of a schema, once its value has been written.
pub fn encode_event(schema: &str, encoded: Result<Vec<u8>, String>) -> (r: Result<
    DomainEvent,
    KernelError,
>)
    ensures
        is_written_event(r, schema@, encoded),
{
    match encoded {
        Ok(b) => Ok(DomainEvent::new(schema.to_owned(), b)),
        Err(t) => Err(KernelError::ReceiptDecode(t)),
    }
}

/// The event that carries a receipt to a workflow.
pub fn build_workflow_receipt_event<C: ReceiptCodec>(
    ctx: &ReducerEffectContext,
    receipt: &EffectReceipt,
    codec: &C,
) -> (r: Result<DomainEvent, KernelError>)
    ensures
        exists|e: WorkflowReceiptEnvelope, encoded: Result<Vec<u8>, String>|
            is_envelope(e, *ctx, *receipt) && #[trigger] call_ensures(
                C::envelope,
                (codec, &e),
                encoded,
            ) && is_written_event(r, SYS_EFFECT_RECEIPT_ENVELOPE_SCHEMA@, encoded),
{
    let envelope = workflow_envelope(ctx, receipt);
    let encoded = codec.envelope(&envelope);
    let ghost told = encoded;
    let r = encode_event(SYS_EFFECT_RECEIPT_ENVELOPE_SCHEMA, encoded);
    assert(call_ensures(C::envelope, (codec, &envelope), told));
    r
}

/// Whether a result says that something could not be read, or written.
pub open spec fn is_decode_fault(r: Result<Option<DomainEvent>, KernelError>, fault: String) -> bool {
    r matches Err(KernelError::ReceiptDecode(m)) && m@ == fault@
}

/// Whether a result is the event of a schema with the value that the codec writes, or its error.
pub open spec fn is_typed_written<C: ReceiptCodec>(
    r: Result<Option<DomainEvent>, KernelError>,
    codec: &C,
    schema: Seq<char>,
    event: TypedReceipt,
) -> bool {
    exists|encoded: Result<Vec<u8>, String>| #[trigger]
        call_ensures(C::typed, (codec, &event), encoded) && match r {
            Ok(Some(e)) => is_written_event(Ok(e), schema, encoded),
            Ok(None) => false,
            Err(e) => is_written_event(Err(e), schema, encoded),
        }
}

fn write_typed<C: ReceiptCodec>(codec: &C, schema: &str, event: &TypedReceipt) -> (r: Result<
    Option<DomainEvent>,
    KernelError,
>)
    ensures
        is_typed_written(r, codec, schema@, *event),
{
    let encoded = codec.typed(event);
    let ghost told = encoded;
    let r = match encode_event(schema, encoded) {
        Ok(e) => Ok(Some(e)),
        Err(e) => Err(e),
    };
    assert(call_ensures(C::typed, (codec, event), told));
    r
}

/// Whether a result is the event of a timer, with its params and receipt as the codec reads them.
pub open spec fn is_timer_event<C: ReceiptCodec>(
    r: Result<Option<DomainEvent>, KernelError>,
    codec: &C,
    ctx: ReducerEffectContext,
    receipt: EffectReceipt,
) -> bool {
    exists|a: &[u8], asked: Result<TimerSetParams, String>|
        a@ == ctx.params_cbor@ && #[trigger] call_ensures(C::timer_params, (codec, a), asked) && match asked {
            Err(t) => is_decode_fault(r, t),
            Ok(p) => exists|b: &[u8], came: Result<TimerSetReceipt, String>|
                b@ == receipt.payload_cbor@ && #[trigger] call_ensures(
                    C::timer_receipt,
                    (codec, b),
                    came,
                ) && match came {
                    Err(t) => is_decode_fault(r, t),
                    Ok(q) => exists|e: TypedReceiptEvent<TimerSetParams, TimerSetReceipt>|
                        is_typed_event(e, ctx, receipt, p, q) && #[trigger] is_typed_written(
                            r,
                            codec,
                            SYS_TIMER_FIRED_SCHEMA@,
                            TypedReceipt::Timer(e),
                        ),
                },
        }
}

fn timer_event<C: ReceiptCodec>(
    ctx: &ReducerEffectContext,
    receipt: &EffectReceipt,
    codec: &C,
) -> (r: Result<Option<DomainEvent>, KernelError>)
    ensures
        is_timer_event(r, codec, *ctx, *receipt),
{
    let a = ctx.params_cbor.as_slice();
    let b = receipt.payload_cbor.as_slice();
    let asked = codec.timer_params(a);
    let ghost read = asked;
    assert(call_ensures(C::timer_params, (codec, a), read));
    if let Err(t) = asked {
        return Err(KernelError::ReceiptDecode(t));
    }
    let came = codec.timer_receipt(b);
    let ghost outcome = came;
    assert(call_ensures(C::timer_receipt, (codec, b), outcome));
    match build_typed_event(ctx, receipt, asked, came) {
        Ok(e) => {
            let event = TypedReceipt::Timer(e);
            let r = write_typed(codec, SYS_TIMER_FIRED_SCHEMA, &event);
            assert(is_typed_written(r, codec, SYS_TIMER_FIRED_SCHEMA@, TypedReceipt::Timer(e)));
            r
        },
        Err(e) => Err(e),
    }
}

/// Whether a result is the event of a blob that was put, with its params and receipt as the codec reads them.
pub open spec fn is_blob_put_event<C: ReceiptCodec>(
    r: Result<Option<DomainEvent>, KernelError>,
    codec: &C,
    ctx: ReducerEffectContext,
    receipt: EffectReceipt,
) -> bool {
    exists|a: &[u8], asked: Result<BlobPutParams, String>|
        a@ == ctx.params_cbor@ && #[trigger] call_ensures(C::blob_put_params, (codec, a), asked) && match asked {
            Err(t) => is_decode_fault(r, t),
            Ok(p) => exists|b: &[u8], came: Result<BlobPutReceipt, String>|
                b@ == receipt.payload_cbor@ && #[trigger] call_ensures(
                    C::blob_put_receipt,
                    (codec, b),
                    came,
                ) && match came {
                    Err(t) => is_decode_fault(r, t),
                    Ok(q) => exists|e: TypedReceiptEvent<BlobPutParams, BlobPutReceipt>|
                        is_typed_event(e, ctx, receipt, p, q) && #[trigger] is_typed_written(
                            r,
                            codec,
                            SYS_BLOB_PUT_RESULT_SCHEMA@,
                            TypedReceipt::BlobPut(e),
                        ),
                },
        }
}

fn blob_put_event<C: ReceiptCodec>(
    ctx: &ReducerEffectContext,
    receipt: &EffectReceipt,
    codec: &C,
) -> (r: Result<Option<DomainEvent>, KernelError>)
    ensures
        is_blob_put_event(r, codec, *ctx, *receipt),
{
    let a = ctx.params_cbor.as_slice();
    let b = receipt.payload_cbor.as_slice();
    let asked = codec.blob_put_params(a);
    let ghost read = asked;
    assert(call_ensures(C::blob_put_params, (codec, a), read));
    if let Err(t) = asked {
        return Err(KernelError::ReceiptDecode(t));
    }
    let came = codec.blob_put_receipt(b);
    let ghost outcome = came;
    assert(call_ensures(C::blob_put_receipt, (codec, b), outcome));
    match build_typed_event(ctx, receipt, asked, came) {
        Ok(e) => {
            let event = TypedReceipt::BlobPut(e);
            let r = write_typed(codec, SYS_BLOB_PUT_RESULT_SCHEMA, &event);
            assert(is_typed_written(r, codec, SYS_BLOB_PUT_RESULT_SCHEMA@, TypedReceipt::BlobPut(e)));
            r
        },
        Err(e) => Err(e),
    }
}

/// Whether a result is the event of a blob that was asked for, with its params and receipt as the codec reads them.
pub open spec fn is_blob_get_event<C: ReceiptCodec>(
    r: Result<Option<DomainEvent>, KernelError>,
    codec: &C,
    ctx: ReducerEffectContext,
    receipt: EffectReceipt,
) -> bool {
    exists|a: &[u8], asked: Result<BlobGetParams, String>|
        a@ == ctx.params_cbor@ && #[trigger] call_ensures(C::blob_get_params, (codec, a), asked) && match asked {
            Err(t) => is_decode_fault(r, t),
            Ok(p) => exists|b: &[u8], came: Result<BlobGetReceipt, String>|
                b@ == receipt.payload_cbor@ && #[trigger] call_ensures(
                    C::blob_get_receipt,
                    (codec, b),
                    came,
                ) && match came {
                    Err(t) => is_decode_fault(r, t),
                    Ok(q) => exists|e: TypedReceiptEvent<BlobGetParams, BlobGetReceipt>|
                        is_typed_event(e, ctx, receipt, p, q) && #[trigger] is_typed_written(
                            r,
                            codec,
                            SYS_BLOB_GET_RESULT_SCHEMA@,
                            TypedReceipt::BlobGet(e),
                        ),
                },
        }
}

fn blob_get_event<C: ReceiptCodec>(
    ctx: &ReducerEffectContext,
    receipt: &EffectReceipt,
    codec: &C,
) -> (r: Result<Option<DomainEvent>, KernelError>)
    ensures
        is_blob_get_event(r, codec, *ctx, *receipt),
{
    let a = ctx.params_cbor.as_slice();
    let b = receipt.payload_cbor.as_slice();
    let asked = codec.blob_get_params(a);
    let ghost read = asked;
    assert(call_ensures(C::blob_get_params, (codec, a), read));
    if let Err(t) = asked {
        return Err(KernelError::ReceiptDecode(t));
    }
    let came = codec.blob_get_receipt(b);
    let ghost outcome = came;
    assert(call_ensures(C::blob_get_receipt, (codec, b), outcome));
    match build_typed_event(ctx, receipt, asked, came) {
        Ok(e) => {
            let event = TypedReceipt::BlobGet(e);
            let r = write_typed(codec, SYS_BLOB_GET_RESULT_SCHEMA, &event);
            assert(is_typed_written(r, codec, SYS_BLOB_GET_RESULT_SCHEMA@, TypedReceipt::BlobGet(e)));
            r
        },
        Err(e) => Err(e),
    }
}

/// The event of a receipt with a type of its own: of a timer or a blob. Other effects have none.
pub fn build_legacy_reducer_receipt_event<C: ReceiptCodec>(
    ctx: &ReducerEffectContext,
    receipt: &EffectReceipt,
    codec: &C,
) -> (r: Result<Option<DomainEvent>, KernelError>)
    ensures
        if ctx.effect_kind@ == "timer.set"@ {
            is_timer_event(r, codec, *ctx, *receipt)
        } else if ctx.effect_kind@ == "blob.put"@ {
            is_blob_put_event(r, codec, *ctx, *receipt)
        } else if ctx.effect_kind@ == "blob.get"@ {
            is_blob_get_event(r, codec, *ctx, *receipt)
        } else {
            r matches Ok(None)
        },
{
    let kind = ctx.effect_kind.as_str();
    if str_eq(kind, "timer.set") {
        timer_event(ctx, receipt, codec)
    } else if str_eq(kind, "blob.put") {
        blob_put_event(ctx, receipt, codec)
    } else if str_eq(kind, "blob.get") {
        blob_get_event(ctx, receipt, codec)
    } else {
        Ok(None)
    }
}

/// An envelope goes to the module, and the instance of it, that asked for the effect, and carries
/// what the adapter reported as it was reported.
pub proof fn lemma_envelope_carries_the_receipt(
    e: WorkflowReceiptEnvelope,
    ctx: ReducerEffectContext,
    receipt: EffectReceipt,
)
    requires
        is_envelope(e, ctx, receipt),
    ensures
        e.origin_module_id@ == ctx.origin_module_id@,
        e.origin_instance_key is Some == ctx.origin_instance_key is Some,
        e.origin_instance_key matches Some(k) ==> k@ == ctx.origin_instance_key->0@,
        e.intent_id@ == hash_text(ctx.intent_id@),
        e.effect_kind@ == ctx.effect_kind@,
        e.params_hash is Some && e.params_hash->0@ == hash_text(sha256(ctx.params_cbor@)),
        e.emitted_at_seq == ctx.emitted_at_seq,
        e.receipt_payload@ == receipt.payload_cbor@,
        e.status == receipt.status,
        e.adapter_id@ == receipt.adapter_id@,
        e.cost_cents == receipt.cost_cents,
        e.signature@ == receipt.signature@,
{
}

/// An event with a type of its own says what was asked for and what came of it, by whom, how it
/// ended, what it cost and who signed it.
pub proof fn lemma_typed_event_carries_the_receipt<P, Q>(
    e: TypedReceiptEvent<P, Q>,
    ctx: ReducerEffectContext,
    receipt: EffectReceipt,
    requested: P,
    outcome: Q,
)
    requires
        is_typed_event(e, ctx, receipt, requested, outcome),
    ensures
        e.requested == requested && e.receipt == outcome,
        e.intent_hash@ == hash_text(ctx.intent_id@) && e.reducer@ == ctx.origin_module_id@,
        e.effect_kind@ == ctx.effect_kind@ && e.adapter_id@ == receipt.adapter_id@,
        e.status == receipt.status && e.cost_cents == receipt.cost_cents && e.signature@
            == receipt.signature@,
{
}

/// The event of a timer is written of params and of a receipt that the codec read from the bytes of
/// the request and of the receipt. Where one of them cannot be read, that is the error.
pub proof fn lemma_timer_event_is_read_and_written<C: ReceiptCodec>(
    r: Result<Option<DomainEvent>, KernelError>,
    codec: &C,
    ctx: ReducerEffectContext,
    receipt: EffectReceipt,
)
    requires
        is_timer_event(r, codec, ctx, receipt),
    ensures
        r matches Ok(o) ==> o is Some && o->0.schema@ == "sys/TimerFired@1"@ && o->0.key is None
            && exists|a: &[u8], b: &[u8], p: TimerSetParams, q: TimerSetReceipt, t: TypedReceipt|
            a@ == ctx.params_cbor@ && b@ == receipt.payload_cbor@ && #[trigger] call_ensures(
                C::timer_params,
                (codec, a),
                Ok::<TimerSetParams, String>(p),
            ) && #[trigger] call_ensures(
                C::timer_receipt,
                (codec, b),
                Ok::<TimerSetReceipt, String>(q),
            ) && #[trigger] call_ensures(
                C::typed,
                (codec, &t),
                Ok::<Vec<u8>, String>(o->0.value),
            ) && (t matches TypedReceipt::Timer(e) && e.requested == p && e.receipt == q && e.status
                == receipt.status),
        r is Err ==> r->Err_0 is ReceiptDecode,
{
    let (a, asked) = choose|a: &[u8], asked: Result<TimerSetParams, String>|
        a@ == ctx.params_cbor@ && #[trigger] call_ensures(C::timer_params, (codec, a), asked)
            && match asked {
            Err(t) => is_decode_fault(r, t),
            Ok(p) => exists|b: &[u8], came: Result<TimerSetReceipt, String>|
                b@ == receipt.payload_cbor@ && #[trigger] call_ensures(
                    C::timer_receipt,
                    (codec, b),
                    came,
                ) && match came {
                    Err(t) => is_decode_fault(r, t),
                    Ok(q) => exists|e: TypedReceiptEvent<TimerSetParams, TimerSetReceipt>|
                        is_typed_event(e, ctx, receipt, p, q) && #[trigger] is_typed_written(
                            r,
                            codec,
                            SYS_TIMER_FIRED_SCHEMA@,
                            TypedReceipt::Timer(e),
                        ),
                },
        };
    if let Ok(p) = asked {
        let (b, came) = choose|b: &[u8], came: Result<TimerSetReceipt, String>|
            b@ == receipt.payload_cbor@ && #[trigger] call_ensures(
                C::timer_receipt,
                (codec, b),
                came,
            ) && match came {
                Err(t) => is_decode_fault(r, t),
                Ok(q) => exists|e: TypedReceiptEvent<TimerSetParams, TimerSetReceipt>|
                    is_typed_event(e, ctx, receipt, p, q) && #[trigger] is_typed_written(
                        r,
                        codec,
                        SYS_TIMER_FIRED_SCHEMA@,
                        TypedReceipt::Timer(e),
                    ),
            };
        if let Ok(q) = came {
            let e = choose|e: TypedReceiptEvent<TimerSetParams, TimerSetReceipt>|
                is_typed_event(e, ctx, receipt, p, q) && #[trigger] is_typed_written(
                    r,
                    codec,
                    SYS_TIMER_FIRED_SCHEMA@,
                    TypedReceipt::Timer(e),
                );
            let t = TypedReceipt::Timer(e);
            let encoded = choose|encoded: Result<Vec<u8>, String>| #[trigger]
                call_ensures(C::typed, (codec, &t), encoded) && match r {
                    Ok(Some(e)) => is_written_event(Ok(e), SYS_TIMER_FIRED_SCHEMA@, encoded),
                    Ok(None) => false,
                    Err(e) => is_written_event(Err(e), SYS_TIMER_FIRED_SCHEMA@, encoded),
                };
            if r is Ok {
                assert(call_ensures(
                    C::typed,
                    (codec, &t),
                    Ok::<Vec<u8>, String>(r->Ok_0->0.value),
                ));
            }
        }
    }
}

} // verus!
