use aos_kernel::capability::expand::can_expand_schema;
use aos_kernel::capability::params::{grants_can_expand, CapGrant, DefCap, ParamCodec};
use aos_kernel::capability::{CapabilityGrant, CapabilityResolver, CAP_HTTP_ENFORCER};
use aos_kernel::cbor::{encode_cbor, CborValue};
use aos_kernel::error::KernelError;
use aos_kernel::hash::ContentHash;
use aos_kernel::literal::ValueLiteral;
use aos_kernel::names::NameMap;
use aos_kernel::types::{SchemaIndex, TypeExpr, TypePrimitive};
use serde_cbor::Value;

fn text_literal(text: &str) -> ValueLiteral {
    ValueLiteral::Text(text.to_string())
}

fn hosts_schema() -> TypeExpr {
    TypeExpr::Record(vec![(
        "hosts".to_string(),
        TypeExpr::SetOf(Box::new(TypeExpr::Primitive(TypePrimitive::Text))),
    )])
}

fn grants(params: ValueLiteral) -> Vec<CapGrant> {
    vec![CapGrant {
        name: "http_cap".to_string(),
        cap: "sys/http.out@1".to_string(),
        params,
        expiry_ns: None,
    }]
}

fn defcap(schema: TypeExpr) -> NameMap<DefCap> {
    let mut caps = NameMap::new();
    caps.insert(
        "sys/http.out@1".to_string(),
        DefCap {
            name: "sys/http.out@1".to_string(),
            cap_type: "http.out".to_string(),
            schema,
            enforcer: "sys/CapEnforceHttpOut@1".to_string(),
        },
    );
    caps
}

fn empty_schema_index() -> SchemaIndex {
    SchemaIndex {
        schemas: NameMap::new(),
    }
}

/// Accepts records that have the fields of their schema.
struct Fields;

impl ParamCodec for Fields {
    fn validate(&self, params: &ValueLiteral, schema: &TypeExpr) -> Result<(), String> {
        match (params, schema) {
            (ValueLiteral::Record(have), TypeExpr::Record(want)) => {
                for (name, _) in want {
                    if !have.iter().any(|(n, _)| n == name) {
                        return Err(format!("record missing field '{name}'"));
                    }
                }
                Ok(())
            }
            _ => Err("expected record".to_string()),
        }
    }

    fn normalize(&self, value: &CborValue, _schema: &TypeExpr) -> Result<Vec<u8>, String> {
        encode_cbor(value)
    }
}

fn good() -> ValueLiteral {
    ValueLiteral::Record(vec![(
        "hosts".to_string(),
        ValueLiteral::SetOf(vec![text_literal("example.com")]),
    )])
}

fn bad() -> ValueLiteral {
    ValueLiteral::Record(vec![])
}

#[test]
fn capability_params_must_match_schema() {
    assert!(CapabilityResolver::from_manifest(
        &grants(good()),
        &defcap(hosts_schema()),
        &empty_schema_index(),
        NameMap::new(),
        &Fields,
    )
    .is_ok());
}

#[test]
fn invalid_capability_params_error() {
    let err = match CapabilityResolver::from_manifest(
        &grants(bad()),
        &defcap(hosts_schema()),
        &empty_schema_index(),
        NameMap::new(),
        &Fields,
    ) {
        Ok(_) => panic!("expected validation error"),
        Err(err) => err,
    };
    assert!(matches!(
        err,
        KernelError::CapabilityParamInvalid { grant, .. } if grant == "http_cap"
    ));
}

#[test]
fn capability_schema_refs_are_expanded() {
    let referenced_schema = "com.acme/GrantSchema@1";
    let caps = defcap(TypeExpr::Ref(referenced_schema.to_string()));
    let mut schemas = NameMap::new();
    schemas.insert(referenced_schema.to_string(), hosts_schema());
    let schema_index = SchemaIndex { schemas };

    assert!(CapabilityResolver::from_manifest(
        &grants(good()),
        &caps,
        &schema_index,
        NameMap::new(),
        &Fields,
    )
    .is_ok());

    let err = match CapabilityResolver::from_manifest(
        &grants(bad()),
        &caps,
        &schema_index,
        NameMap::new(),
        &Fields,
    ) {
        Ok(_) => panic!("schema refs should enforce fields"),
        Err(err) => err,
    };
    assert!(matches!(
        err,
        KernelError::CapabilityParamInvalid { cap, .. } if cap == "sys/http.out@1"
    ));
}

#[test]
fn a_schema_that_is_missing_is_an_error() {
    assert!(CapabilityResolver::from_manifest(
        &grants(good()),
        &defcap(TypeExpr::Ref("com.acme/Missing@1".to_string())),
        &empty_schema_index(),
        NameMap::new(),
        &Fields,
    )
    .is_err());
}

#[test]
fn a_capability_that_is_missing_is_an_error() {
    assert!(CapabilityResolver::from_manifest(
        &grants(good()),
        &NameMap::new(),
        &empty_schema_index(),
        NameMap::new(),
        &Fields,
    )
    .is_err());
}

fn runtime() -> CapabilityResolver {
    let mut effects = NameMap::new();
    effects.insert("http.request".to_string(), "http.out".to_string());
    effects.insert("llm.generate".to_string(), "llm.basic".to_string());
    let grant = |name: &str| CapabilityGrant {
        name: name.to_string(),
        cap: "sys/http.out@1".to_string(),
        params_cbor: vec![0xa0],
        expiry_ns: Some(9),
    };
    CapabilityResolver::from_runtime_grants(
        vec![
            (grant("a"), "http.out".to_string()),
            (grant("b"), "http.out".to_string()),
        ],
        effects,
    )
}

#[test]
fn grants_are_resolved_by_name_and_effect() {
    let resolver = runtime();
    assert!(resolver.has_grant("a"));
    assert!(!resolver.has_grant("c"));
    let got = resolver.resolve("a", "http.request").unwrap();
    assert_eq!(got.cap_type, "http.out");
    assert_eq!(got.enforcer, CAP_HTTP_ENFORCER);
    assert_eq!(resolver.resolve_grant("b").unwrap().grant.name, "b");
    assert!(matches!(
        resolver.resolve("c", "http.request").unwrap_err(),
        KernelError::CapabilityGrantNotFound(_)
    ));
    assert!(matches!(
        resolver.resolve("a", "llm.generate").unwrap_err(),
        KernelError::CapabilityTypeMismatch { .. }
    ));
    assert!(matches!(
        resolver.resolve("a", "no.such").unwrap_err(),
        KernelError::UnsupportedEffect(_)
    ));
}

#[test]
fn a_grant_for_an_effect_must_be_the_only_one() {
    let resolver = runtime();
    assert!(resolver
        .unique_grant_for_effect_kind("http.request")
        .unwrap()
        .is_none());
    assert!(resolver
        .unique_grant_for_effect_kind("llm.generate")
        .unwrap()
        .is_none());
}

#[test]
fn the_hash_of_a_grant_is_that_of_its_terms() {
    let resolver = runtime();
    let a = resolver.resolve_grant("a").unwrap();
    let b = resolver.resolve_grant("b").unwrap();
    assert_eq!(a.grant_hash, b.grant_hash);
    let mut terms = std::collections::BTreeMap::new();
    for (k, v) in [
        ("defcap_ref", Value::Text("sys/http.out@1".to_string())),
        ("cap_type", Value::Text("http.out".to_string())),
        ("params_cbor", Value::Bytes(vec![0xa0])),
        ("expiry_ns", Value::Integer(9)),
    ] {
        terms.insert(Value::Text(k.to_string()), v);
    }
    let bytes = serde_cbor::to_vec(&Value::Map(terms)).unwrap();
    assert_eq!(&a.grant_hash, ContentHash::of_bytes(&bytes).as_bytes());
}

#[test]
fn schemas_with_circles_cannot_be_filled_in() {
    let mut schemas = NameMap::new();
    let to = |name: &str| TypeExpr::Ref(name.to_string());
    schemas.insert(
        "tree".to_string(),
        TypeExpr::Record(vec![(
            "kids".to_string(),
            TypeExpr::List(Box::new(to("tree"))),
        )]),
    );
    schemas.insert(
        "pair".to_string(),
        TypeExpr::Record(vec![
            ("a".to_string(), to("hosts")),
            ("b".to_string(), TypeExpr::OptionOf(Box::new(to("hosts")))),
        ]),
    );
    schemas.insert("hosts".to_string(), hosts_schema());
    let index = SchemaIndex { schemas };
    assert!(can_expand_schema(&to("hosts"), &index));
    assert!(can_expand_schema(&to("pair"), &index));
    assert!(can_expand_schema(&to("missing"), &index));
    assert!(!can_expand_schema(&to("tree"), &index));
    assert!(!can_expand_schema(
        &TypeExpr::Variant(vec![("x".to_string(), to("tree"))]),
        &index
    ));
    assert!(grants_can_expand(
        &grants(good()),
        &defcap(to("hosts")),
        &index
    ));
    assert!(!grants_can_expand(
        &grants(good()),
        &defcap(to("tree")),
        &index
    ));
    assert!(CapabilityResolver::from_manifest(
        &grants(good()),
        &defcap(to("hosts")),
        &index,
        NameMap::new(),
        &Fields,
    )
    .is_ok());
}
