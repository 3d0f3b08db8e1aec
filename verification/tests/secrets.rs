use std::collections::BTreeMap;

use aos_kernel::effects::EffectSource;
use aos_kernel::error::KernelError;
use aos_kernel::hash::{ContentHash, HashRef};
use aos_kernel::names::NameMap;
use aos_kernel::secret::{
    collect_secret_refs, enforce_secret_policy, inject_secrets_in_params,
    validate_secrets_in_params, MapSecretResolver, PlaceholderSecretResolver, SecretCatalog,
    SecretDecl, SecretPolicy, SecretResolver, SecretResolverError,
};
use serde_cbor::Value;

fn one(name: &str, value: &[u8]) -> MapSecretResolver {
    let mut values = NameMap::new();
    values.insert(name.to_string(), value.to_vec());
    MapSecretResolver::new(values)
}

#[test]
fn map_resolver_returns_value_and_digest() {
    let resolver = one("stripe:prod", b"secret");

    let resolved = resolver
        .resolve("stripe:prod", &None)
        .expect("resolve secret");

    assert_eq!(resolved.value, b"secret".to_vec());
    assert_eq!(resolved.digest, ContentHash::of_bytes(b"secret"));
}

#[test]
fn map_resolver_rejects_missing_binding() {
    let resolver = MapSecretResolver::new(NameMap::new());
    let err = resolver
        .resolve("missing", &None)
        .expect_err("missing binding should error");

    assert!(matches!(err, SecretResolverError::NotFound(binding) if binding == "missing"));
}

#[test]
fn map_resolver_rejects_digest_mismatch() {
    let resolver = one("stripe:prod", b"secret");
    let expected = HashRef::new(ContentHash::of_bytes(b"other").to_hex()).unwrap();

    let err = resolver
        .resolve("stripe:prod", &Some(expected))
        .expect_err("digest mismatch should error");

    assert!(matches!(err, SecretResolverError::DigestMismatch { .. }));
}

#[test]
fn placeholder_echoes_expected_digest() {
    let expected = HashRef::new(ContentHash::of_bytes(b"bytes").to_hex()).unwrap();
    let resolver = PlaceholderSecretResolver;

    let resolved = resolver
        .resolve("binding", &Some(expected.clone()))
        .expect("resolve placeholder");

    assert_eq!(
        resolved.digest,
        ContentHash::from_hex_str(expected.as_str()).unwrap()
    );
    assert!(resolved.value.is_empty());
}

fn entry(key: &str, value: Value) -> Value {
    let mut map = BTreeMap::new();
    map.insert(Value::Text(key.to_string()), value);
    Value::Map(map)
}

fn secret_ref(alias: &str, version: i128) -> Value {
    let mut secret_map = BTreeMap::new();
    secret_map.insert(
        Value::Text("alias".to_string()),
        Value::Text(alias.to_string()),
    );
    secret_map.insert(Value::Text("version".to_string()), Value::Integer(version));
    entry("secret", Value::Map(secret_map))
}

fn params(alias: &str) -> Vec<u8> {
    let headers = entry("authorization", secret_ref(alias, 1));
    serde_cbor::to_vec(&entry("headers", headers)).unwrap()
}

fn decl(policy: Option<SecretPolicy>) -> SecretDecl {
    SecretDecl {
        alias: "auth/api".to_string(),
        version: 1,
        binding_id: "binding".to_string(),
        expected_digest: None,
        policy,
    }
}

#[test]
fn injects_secret_into_params() {
    let resolver = one("binding", b"token123");
    let catalog = SecretCatalog::new(&[decl(None)]);
    let injected = inject_secrets_in_params(&params("auth/api"), &catalog, &resolver)
        .expect("inject secrets");
    let value: Value = serde_cbor::from_slice(&injected).unwrap();
    if let Value::Map(root) = value {
        let headers = root
            .iter()
            .find(|(k, _)| matches!(k, Value::Text(t) if t == "headers"))
            .unwrap()
            .1
            .clone();
        if let Value::Map(hmap) = headers {
            let auth = hmap
                .iter()
                .find(|(k, _)| matches!(k, Value::Text(t) if t == "authorization"))
                .unwrap()
                .1
                .clone();
            assert!(matches!(auth, Value::Text(t) if t == "token123"));
        } else {
            panic!("headers not a map");
        }
    } else {
        panic!("root not a map");
    }
}

#[test]
fn secrets_that_are_no_text_are_injected_as_bytes() {
    let resolver = one("binding", &[0xff, 0xfe]);
    let catalog = SecretCatalog::new(&[decl(None)]);
    let raw = serde_cbor::to_vec(&entry("k", secret_ref("auth/api", 1))).unwrap();
    let injected = inject_secrets_in_params(&raw, &catalog, &resolver).unwrap();
    assert_eq!(
        injected,
        serde_cbor::to_vec(&entry("k", Value::Bytes(vec![0xff, 0xfe]))).unwrap()
    );
}

#[test]
fn params_that_are_valid_can_be_injected() {
    let resolver = one("binding", b"token123");
    let catalog = SecretCatalog::new(&[decl(None)]);
    assert!(!catalog.is_empty());
    assert!(validate_secrets_in_params(&params("auth/api"), &catalog, &resolver).is_ok());
    assert!(inject_secrets_in_params(&params("auth/api"), &catalog, &resolver).is_ok());
    assert!(validate_secrets_in_params(&params("other"), &catalog, &resolver).is_err());
    assert!(inject_secrets_in_params(&params("other"), &catalog, &resolver).is_err());
}

#[test]
fn params_without_secrets_stay() {
    let raw = serde_cbor::to_vec(&entry("k", Value::Integer(3))).unwrap();
    let catalog = SecretCatalog::new(&[]);
    assert!(catalog.is_empty());
    assert_eq!(
        inject_secrets_in_params(&raw, &catalog, &PlaceholderSecretResolver).unwrap(),
        raw
    );
}

#[test]
fn references_are_collected() {
    let refs = collect_secret_refs(&params("auth/api")).unwrap();
    assert_eq!(refs, vec![("auth/api".to_string(), 1)]);
    assert!(matches!(
        collect_secret_refs(&[0xff]).unwrap_err(),
        SecretResolverError::InvalidParams { .. }
    ));
}

#[test]
fn a_policy_names_who_may_use_a_secret() {
    let catalog = SecretCatalog::new(&[decl(Some(SecretPolicy {
        allowed_caps: vec!["http".to_string()],
        allowed_plans: vec!["com.acme/plan@1".to_string()],
    }))]);
    let plan = |name: &str| EffectSource::Plan {
        name: name.to_string(),
    };
    let check = |source: &EffectSource, cap: &str| {
        enforce_secret_policy(&params("auth/api"), &catalog, source, cap)
    };
    assert!(check(&plan("com.acme/plan@1"), "http").is_ok());
    assert!(matches!(
        check(&plan("com.acme/plan@1"), "llm").unwrap_err(),
        KernelError::SecretPolicyDenied { .. }
    ));
    assert!(check(&plan("other"), "http").is_err());
}
