use std::collections::BTreeMap;

use aos_kernel::effects::blob::normalize_blob_put_params;
use aos_kernel::effects::{
    normalize_idempotency_key, EffectCodec, EffectIntent, EffectManager, EffectParamPreprocessor,
    EffectRuntimeIdentity, EffectSource, WorkflowEffect,
};
use aos_kernel::error::KernelError;
use aos_kernel::hash::ContentHash;
use aos_kernel::names::NameMap;
use aos_kernel::secret::{PlaceholderSecretResolver, SecretCatalog, SecretDecl};
use serde_cbor::Value;

/// Leaves params as they are.
struct Plain;

impl EffectCodec for Plain {
    fn normalize_params(&self, _effect: &str, params_cbor: &[u8]) -> Result<Vec<u8>, String> {
        if params_cbor == b"bad" {
            return Err("bad params".to_string());
        }
        Ok(params_cbor.to_vec())
    }

    fn normalize_secrets(&self, params_cbor: &[u8]) -> Result<Vec<u8>, String> {
        Ok(params_cbor.to_vec())
    }

    fn make_intent(
        &self,
        effect: &str,
        identity: Option<EffectRuntimeIdentity>,
        params_cbor: Vec<u8>,
        idempotency_key: [u8; 32],
    ) -> Result<EffectIntent, String> {
        Ok(EffectIntent {
            kind: effect.to_string(),
            cap_name: String::new(),
            identity,
            intent_hash: *ContentHash::of_bytes(&params_cbor).as_bytes(),
            params_cbor,
            idempotency_key,
        })
    }
}

struct Unchanged;

impl EffectParamPreprocessor for Unchanged {
    fn preprocess(
        &self,
        _source: &EffectSource,
        _effect: &str,
        params_cbor: Vec<u8>,
    ) -> Result<Vec<u8>, KernelError> {
        Ok(params_cbor)
    }
}

fn manager(catalog: Option<SecretCatalog>) -> EffectManager<Unchanged, PlaceholderSecretResolver> {
    let mut effects = NameMap::new();
    effects.insert("http.request".to_string(), "http.out".to_string());
    EffectManager::new(effects, None, catalog, Some(PlaceholderSecretResolver))
}

fn effect(kind: &str, params: &[u8], key: Option<Vec<u8>>) -> WorkflowEffect {
    WorkflowEffect {
        kind: kind.to_string(),
        params_cbor: params.to_vec(),
        idempotency_key: key,
    }
}

#[test]
fn effects_are_drained_in_order() {
    let mut m = manager(None);
    assert!(!m.has_pending());
    let one = Value::Integer(1);
    let two = Value::Integer(2);
    let mut intents = Vec::new();
    for v in [&one, &two] {
        let params = serde_cbor::to_vec(v).unwrap();
        intents.push(
            m.enqueue_workflow_effect("w", &effect("http.request", &params, None), &Plain)
                .unwrap(),
        );
    }
    m.restore_queue(intents);
    assert_eq!(m.queued().len(), 2);
    let drained = m.drain().unwrap();
    assert_eq!(drained[0].params_cbor, vec![1]);
    assert_eq!(drained[1].params_cbor, vec![2]);
    assert!(!m.has_pending());
}

#[test]
fn unknown_effects_are_refused() {
    let mut m = manager(None);
    assert!(matches!(
        m.enqueue_workflow_effect("w", &effect("no.such", &[1], None), &Plain)
            .unwrap_err(),
        KernelError::UnsupportedEffect(_)
    ));
    assert!(matches!(
        m.enqueue_workflow_effect("w", &effect("http.request", b"bad", None), &Plain)
            .unwrap_err(),
        KernelError::EffectManager(_)
    ));
    assert!(!m.has_pending());
}

#[test]
fn idempotency_keys_have_a_length() {
    assert_eq!(normalize_idempotency_key(&None).unwrap(), [0; 32]);
    assert_eq!(
        normalize_idempotency_key(&Some(vec![4; 32])).unwrap(),
        [4; 32]
    );
    assert!(matches!(
        normalize_idempotency_key(&Some(vec![4])).unwrap_err(),
        KernelError::IdempotencyKeyInvalid(_)
    ));
}

fn secret_params() -> Vec<u8> {
    let pair = |items: Vec<(&str, Value)>| {
        let mut m = BTreeMap::new();
        for (k, v) in items {
            m.insert(Value::Text(k.to_string()), v);
        }
        Value::Map(m)
    };
    let inner = pair(vec![
        ("alias", Value::Text("a".to_string())),
        ("version", Value::Integer(1)),
    ]);
    serde_cbor::to_vec(&pair(vec![("key", pair(vec![("secret", inner)]))])).unwrap()
}

#[test]
fn secrets_are_injected_before_an_effect_runs() {
    let catalog = SecretCatalog::new(&[SecretDecl {
        alias: "a".to_string(),
        version: 1,
        binding_id: "b".to_string(),
        expected_digest: None,
        policy: None,
    }]);
    let mut m = manager(Some(catalog));
    let mut intent = m
        .enqueue_workflow_effect("w", &effect("http.request", &secret_params(), None), &Plain)
        .unwrap();
    m.prepare_intent_for_execution(&mut intent).unwrap();
    let decoded: Value = serde_cbor::from_slice(&intent.params_cbor).unwrap();
    match decoded {
        Value::Map(m) => assert_eq!(
            m.get(&Value::Text("key".to_string())),
            Some(&Value::Text(String::new()))
        ),
        _ => panic!("not a map"),
    }
}

#[test]
fn time_is_kept() {
    let mut m = manager(None);
    m.update_logical_now_ns(5);
    assert_eq!(m.logical_now_ns(), 5);
}

#[test]
fn blobs_are_named_by_their_bytes() {
    let mut m = BTreeMap::new();
    m.insert(Value::Text("bytes".to_string()), Value::Bytes(b"hi".to_vec()));
    let raw = serde_cbor::to_vec(&Value::Map(m)).unwrap();
    let normal = normalize_blob_put_params(&raw).unwrap();
    match serde_cbor::from_slice::<Value>(&normal).unwrap() {
        Value::Map(m) => assert_eq!(
            m.get(&Value::Text("blob_ref".to_string())),
            Some(&Value::Text(ContentHash::of_bytes(b"hi").to_hex()))
        ),
        _ => panic!("not a map"),
    }
    assert_eq!(normalize_blob_put_params(&normal).unwrap(), normal);
    assert!(normalize_blob_put_params(&[0xff]).is_err());
}
