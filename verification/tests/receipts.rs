use std::collections::BTreeMap;

use aos_kernel::effects::blob::BlobPutParams;
use aos_kernel::error::KernelError;
use aos_kernel::hash::HashRef;
use aos_kernel::receipts::{
    build_legacy_reducer_receipt_event, build_workflow_receipt_event, workflow_envelope,
    BlobGetParams, BlobGetReceipt, BlobPutReceipt, EffectReceipt, ReceiptCodec, ReceiptStatus,
    ReducerEffectContext, TimerSetParams, TimerSetReceipt, TypedReceipt, WorkflowReceiptEnvelope,
    SYS_BLOB_GET_RESULT_SCHEMA, SYS_BLOB_PUT_RESULT_SCHEMA, SYS_EFFECT_RECEIPT_ENVELOPE_SCHEMA,
    SYS_TIMER_FIRED_SCHEMA,
};
use serde_cbor::Value;

fn fake_hash(byte: u8) -> HashRef {
    let hex = format!("{:02x}", byte);
    HashRef::new(format!("sha256:{}", hex.repeat(32))).unwrap()
}

fn base_receipt() -> EffectReceipt {
    EffectReceipt {
        intent_hash: [1u8; 32],
        adapter_id: "adapter.test".to_string(),
        status: ReceiptStatus::Success,
        payload_cbor: vec![],
        cost_cents: Some(5),
        signature: vec![9, 9],
    }
}

fn base_context(effect_kind: &str) -> ReducerEffectContext {
    ReducerEffectContext::new(
        "com.acme/Workflow@1".to_string(),
        Some(b"order-123".to_vec()),
        effect_kind.to_string(),
        vec![],
        [7u8; 32],
        42,
        Some("sha256:deadbeef".to_string()),
    )
}

fn map(items: Vec<(&str, Value)>) -> Value {
    let mut out = BTreeMap::new();
    for (k, v) in items {
        out.insert(Value::Text(k.to_string()), v);
    }
    Value::Map(out)
}

fn text(t: &str) -> Value {
    Value::Text(t.to_string())
}

fn field(bytes: &[u8], name: &str) -> Result<Value, String> {
    match serde_cbor::from_slice::<Value>(bytes) {
        Ok(Value::Map(m)) => m
            .get(&text(name))
            .cloned()
            .ok_or_else(|| format!("missing field `{name}`")),
        Ok(_) => Err("not a map".to_string()),
        Err(e) => Err(e.to_string()),
    }
}

fn number(bytes: &[u8], name: &str) -> Result<u64, String> {
    match field(bytes, name)? {
        Value::Integer(n) => Ok(n as u64),
        _ => Err("not a number".to_string()),
    }
}

fn words(bytes: &[u8], name: &str) -> Result<String, String> {
    match field(bytes, name)? {
        Value::Text(t) => Ok(t),
        _ => Err("not a text".to_string()),
    }
}

fn digest(bytes: &[u8], name: &str) -> Result<HashRef, String> {
    HashRef::new(words(bytes, name)?).map_err(|e| e.message())
}

/// Reads and writes maps.
struct Maps;

impl ReceiptCodec for Maps {
    fn timer_params(&self, bytes: &[u8]) -> Result<TimerSetParams, String> {
        Ok(TimerSetParams {
            deliver_at_ns: number(bytes, "deliver_at_ns")?,
            key: Some(words(bytes, "key")?),
        })
    }

    fn timer_receipt(&self, bytes: &[u8]) -> Result<TimerSetReceipt, String> {
        Ok(TimerSetReceipt {
            delivered_at_ns: number(bytes, "delivered_at_ns")?,
            key: Some(words(bytes, "key")?),
        })
    }

    fn blob_put_params(&self, bytes: &[u8]) -> Result<BlobPutParams, String> {
        Ok(BlobPutParams {
            bytes: Vec::new(),
            blob_ref: Some(digest(bytes, "blob_ref")?),
            refs: Some(vec![]),
        })
    }

    fn blob_put_receipt(&self, bytes: &[u8]) -> Result<BlobPutReceipt, String> {
        Ok(BlobPutReceipt {
            blob_ref: digest(bytes, "blob_ref")?,
            edge_ref: digest(bytes, "edge_ref")?,
            size: number(bytes, "size")?,
        })
    }

    fn blob_get_params(&self, bytes: &[u8]) -> Result<BlobGetParams, String> {
        Ok(BlobGetParams {
            blob_ref: digest(bytes, "blob_ref")?,
        })
    }

    fn blob_get_receipt(&self, bytes: &[u8]) -> Result<BlobGetReceipt, String> {
        let size = number(bytes, "size")?;
        Ok(BlobGetReceipt {
            blob_ref: digest(bytes, "blob_ref")?,
            size,
            bytes: vec![0; size as usize],
        })
    }

    fn envelope(&self, envelope: &WorkflowReceiptEnvelope) -> Result<Vec<u8>, String> {
        serde_cbor::to_vec(&map(vec![
            ("origin_module_id", text(&envelope.origin_module_id)),
            ("intent_id", text(&envelope.intent_id)),
        ]))
        .map_err(|e| e.to_string())
    }

    fn typed(&self, event: &TypedReceipt) -> Result<Vec<u8>, String> {
        let kind = match event {
            TypedReceipt::Timer(e) => &e.effect_kind,
            TypedReceipt::BlobPut(e) => &e.effect_kind,
            TypedReceipt::BlobGet(e) => &e.effect_kind,
        };
        serde_cbor::to_vec(&map(vec![("effect_kind", text(kind))])).map_err(|e| e.to_string())
    }
}

#[test]
fn workflow_receipt_event_is_structured() {
    let mut ctx = base_context("http.request");
    ctx.params_cbor = vec![1, 2, 3];
    let mut receipt = base_receipt();
    receipt.payload_cbor = vec![4, 5, 6];
    let event = build_workflow_receipt_event(&ctx, &receipt, &Maps).expect("event");
    assert_eq!(event.schema, SYS_EFFECT_RECEIPT_ENVELOPE_SCHEMA);
    assert_eq!(
        words(&event.value, "origin_module_id").unwrap(),
        "com.acme/Workflow@1"
    );

    let decoded = workflow_envelope(&ctx, &receipt);
    assert_eq!(decoded.origin_module_id, "com.acme/Workflow@1");
    assert_eq!(decoded.origin_instance_key, Some(b"order-123".to_vec()));
    assert_eq!(decoded.intent_id, format!("sha256:{}", "07".repeat(32)));
    assert_eq!(decoded.effect_kind, "http.request");
    assert_eq!(decoded.receipt_payload, vec![4, 5, 6]);
    assert_eq!(decoded.emitted_at_seq, 42);
    assert_eq!(decoded.adapter_id, "adapter.test");
    assert_eq!(decoded.status, ReceiptStatus::Success);
    assert_eq!(decoded.cost_cents, Some(5));
    assert_eq!(decoded.signature, vec![9, 9]);
    assert!(decoded.params_hash.is_some());
}

#[test]
fn legacy_unknown_effect_returns_none() {
    let ctx = base_context("custom.effect");
    let receipt = base_receipt();
    let legacy = build_legacy_reducer_receipt_event(&ctx, &receipt, &Maps).expect("legacy");
    assert!(legacy.is_none());
}

#[test]
fn timer_legacy_receipt_event_is_structured() {
    let mut ctx = base_context("timer.set");
    ctx.params_cbor = serde_cbor::to_vec(&map(vec![
        ("deliver_at_ns", Value::Integer(99)),
        ("key", text("order-123")),
    ]))
    .unwrap();
    let mut receipt = base_receipt();
    receipt.payload_cbor = serde_cbor::to_vec(&map(vec![
        ("delivered_at_ns", Value::Integer(123)),
        ("key", text("order-123")),
    ]))
    .unwrap();

    let event = build_legacy_reducer_receipt_event(&ctx, &receipt, &Maps)
        .expect("legacy")
        .expect("timer event");
    assert_eq!(event.schema, SYS_TIMER_FIRED_SCHEMA);
}

#[test]
fn blob_put_legacy_receipt_event_is_structured() {
    let mut ctx = base_context("blob.put");
    ctx.params_cbor =
        serde_cbor::to_vec(&map(vec![("blob_ref", text(fake_hash(0x10).as_str()))])).unwrap();
    let mut receipt = base_receipt();
    receipt.payload_cbor = serde_cbor::to_vec(&map(vec![
        ("blob_ref", text(fake_hash(0x11).as_str())),
        ("edge_ref", text(fake_hash(0x12).as_str())),
        ("size", Value::Integer(42)),
    ]))
    .unwrap();
    let event = build_legacy_reducer_receipt_event(&ctx, &receipt, &Maps)
        .expect("legacy")
        .expect("blob.put event");
    assert_eq!(event.schema, SYS_BLOB_PUT_RESULT_SCHEMA);
}

#[test]
fn blob_get_legacy_receipt_event_is_structured() {
    let mut ctx = base_context("blob.get");
    ctx.params_cbor =
        serde_cbor::to_vec(&map(vec![("blob_ref", text(fake_hash(0x10).as_str()))])).unwrap();
    let mut receipt = base_receipt();
    receipt.payload_cbor = serde_cbor::to_vec(&map(vec![
        ("blob_ref", text(fake_hash(0x12).as_str())),
        ("size", Value::Integer(99)),
    ]))
    .unwrap();
    let event = build_legacy_reducer_receipt_event(&ctx, &receipt, &Maps)
        .expect("legacy")
        .expect("blob.get event");
    assert_eq!(event.schema, SYS_BLOB_GET_RESULT_SCHEMA);
}

#[test]
fn a_receipt_that_cannot_be_read_is_an_error() {
    let ctx = base_context("timer.set");
    assert!(matches!(
        build_legacy_reducer_receipt_event(&ctx, &base_receipt(), &Maps).unwrap_err(),
        KernelError::ReceiptDecode(_)
    ));
}
