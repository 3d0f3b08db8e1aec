use std::collections::BTreeMap;

use aos_kernel::bytes::{bytes_before, bytes_eq};
use aos_kernel::cbor::{decode_cbor, encode_cbor, params_to_json, sort_entries, CborValue};
use aos_kernel::cbor_codec::{
    cbor_value_to_expr_value_loose, decode_receipt_value, encode_value, idempotency_key_from_value,
    value_to_bool,
};
use aos_kernel::codec::{expr_value_to_literal, hash_keys_known, literal_to_value};
use aos_kernel::error::KernelError;
use aos_kernel::hash::{ContentHash, HashRef};
use aos_kernel::literal::ValueLiteral;
use aos_kernel::names::NameMap;
use aos_kernel::schema_value::cbor_to_expr_value;
use aos_kernel::types::{SchemaIndex, TypeExpr, TypeMapKey, TypePrimitive};
use aos_kernel::value::{ExprValue, ValueKey};
use aos_kernel::variant::{
    decode_bytes_variant, decode_text_variant, decode_unit_tag, decode_variant_value,
};
use serde_cbor::Value;

fn text(t: &str) -> CborValue {
    CborValue::Text(t.to_string())
}

#[test]
fn values_are_written_as_their_cbor() {
    let value = ExprValue::Record(vec![
        ("a".to_string(), ExprValue::Int(-1)),
        ("b".to_string(), ExprValue::Bytes(vec![1, 2])),
    ]);
    let mut want = BTreeMap::new();
    want.insert(Value::Text("a".to_string()), Value::Integer(-1));
    want.insert(Value::Text("b".to_string()), Value::Bytes(vec![1, 2]));
    assert_eq!(
        encode_value(&value).unwrap(),
        serde_cbor::to_vec(&Value::Map(want)).unwrap()
    );
}

#[test]
fn cbor_reads_back() {
    let value = CborValue::Mapping(vec![
        (text("k"), CborValue::Array(vec![CborValue::Null, CborValue::Bool(true)])),
        (text("long"), CborValue::Integer(7)),
    ]);
    let bytes = encode_cbor(&value).unwrap();
    match decode_cbor(&bytes).unwrap() {
        CborValue::Mapping(entries) => {
            assert_eq!(entries.len(), 2);
            assert!(matches!(&entries[0].0, CborValue::Text(t) if t == "k"));
            assert!(matches!(&entries[1].1, CborValue::Integer(7)));
        }
        _ => panic!("not a map"),
    }
    assert!(decode_cbor(&[0xff]).is_err());
}

#[test]
fn floats_keep_their_bits() {
    let bytes = serde_cbor::to_vec(&Value::Float(0.1)).unwrap();
    let value = decode_cbor(&bytes).unwrap();
    assert!(matches!(value, CborValue::Float(bits) if bits == 0.1f64.to_bits()));
    assert_eq!(encode_cbor(&value).unwrap(), bytes);
}

#[test]
fn entries_are_sorted_as_a_map_keeps_them() {
    let sorted = sort_entries(&vec![
        (text("bb"), CborValue::Integer(1)),
        (text("a"), CborValue::Integer(2)),
        (text("bb"), CborValue::Integer(3)),
    ]);
    assert_eq!(sorted.len(), 2);
    assert!(matches!(&sorted[0].0, CborValue::Text(t) if t == "a"));
    assert!(matches!(&sorted[1].1, CborValue::Integer(3)));
}

#[test]
fn params_are_shown_as_json() {
    let mut m = BTreeMap::new();
    m.insert(Value::Text("n".to_string()), Value::Integer(1));
    let bytes = serde_cbor::to_vec(&Value::Map(m)).unwrap();
    assert_eq!(params_to_json(&bytes), Some("{\"n\":1}".to_string()));
    assert_eq!(params_to_json(&[0xff]), None);
}

#[test]
fn literals_stand_for_values() {
    let literal = ValueLiteral::Bytes("AQI=".to_string());
    assert!(matches!(
        literal_to_value(&literal).unwrap(),
        ExprValue::Bytes(b) if b == vec![1, 2]
    ));
    assert!(literal_to_value(&ValueLiteral::Bytes("*".to_string())).is_err());
    let back = expr_value_to_literal(&ExprValue::Bytes(vec![1, 2])).unwrap();
    assert!(matches!(back, ValueLiteral::Bytes(t) if t == "AQI="));
}

#[test]
fn keys_that_are_digests_must_be_digests() {
    let set = ExprValue::SetOf(vec![ValueKey::Hash("nope".to_string())]);
    assert!(!hash_keys_known(&set));
    let h = ContentHash::of_bytes(b"x").to_hex();
    assert!(hash_keys_known(&ExprValue::SetOf(vec![ValueKey::Hash(h)])));
}

#[test]
fn only_booleans_are_true_or_false() {
    assert!(value_to_bool(&ExprValue::Bool(true)).unwrap());
    assert!(!value_to_bool(&ExprValue::Bool(false)).unwrap());
    assert!(matches!(
        value_to_bool(&ExprValue::Int(1)).unwrap_err(),
        KernelError::Manifest(_)
    ));
}

#[test]
fn idempotency_keys_are_digests() {
    let h = ContentHash::of_bytes(b"k");
    let text = ExprValue::Text(h.to_hex());
    assert_eq!(&idempotency_key_from_value(&text).unwrap(), h.as_bytes());
    let hash = ExprValue::Hash(HashRef::of_hash(&h));
    assert_eq!(&idempotency_key_from_value(&hash).unwrap(), h.as_bytes());
    assert_eq!(
        idempotency_key_from_value(&ExprValue::Bytes(vec![5; 32])).unwrap(),
        [5; 32]
    );
    for bad in [
        ExprValue::Bytes(vec![1]),
        ExprValue::Text("x".to_string()),
        ExprValue::Null,
    ] {
        assert!(matches!(
            idempotency_key_from_value(&bad).unwrap_err(),
            KernelError::IdempotencyKeyInvalid(_)
        ));
    }
}

#[test]
fn receipts_are_read_as_far_as_they_can_be() {
    assert!(matches!(
        decode_receipt_value(None, &vec![0x01]),
        ExprValue::Nat(1) | ExprValue::Int(1)
    ));
    assert!(matches!(
        decode_receipt_value(Some(ExprValue::Bool(true)), &vec![0x01]),
        ExprValue::Bool(true)
    ));
    assert!(matches!(
        decode_receipt_value(None, &vec![0xff]),
        ExprValue::Bytes(b) if b == vec![0xff]
    ));
    assert!(cbor_value_to_expr_value_loose(&CborValue::Float(0)).is_none());
}

fn no_schemas() -> SchemaIndex {
    SchemaIndex {
        schemas: NameMap::new(),
    }
}

#[test]
fn values_are_read_by_their_types() {
    let read = |v: &CborValue, t: TypeExpr| cbor_to_expr_value(v, &t, &no_schemas());
    let prim = TypeExpr::Primitive;
    assert!(matches!(
        read(&CborValue::Integer(3), prim(TypePrimitive::Nat)).unwrap(),
        ExprValue::Nat(3)
    ));
    assert!(read(&CborValue::Integer(-3), prim(TypePrimitive::Nat)).is_err());
    assert!(matches!(
        read(&CborValue::Null, TypeExpr::OptionOf(Box::new(prim(TypePrimitive::Int)))).unwrap(),
        ExprValue::Null
    ));
    let list = CborValue::Array(vec![CborValue::Integer(1), CborValue::Integer(2)]);
    assert!(matches!(
        read(&list, TypeExpr::List(Box::new(prim(TypePrimitive::Int)))).unwrap(),
        ExprValue::List(items) if items.len() == 2
    ));
    let map = CborValue::Mapping(vec![(text("k"), CborValue::Bool(true))]);
    assert!(matches!(
        read(
            &map,
            TypeExpr::Mapping(TypeMapKey::Text, Box::new(prim(TypePrimitive::Bool)))
        )
        .unwrap(),
        ExprValue::Mapping(items) if items.len() == 1
    ));
    assert!(read(&CborValue::Null, TypeExpr::Ref("no/Such@1".to_string())).is_err());
}

#[test]
fn variants_are_a_tag_and_a_value() {
    let tagged = CborValue::Mapping(vec![
        (text("$tag"), text("on")),
        (text("$value"), CborValue::Integer(4)),
    ]);
    let (tag, inner) = decode_variant_value(tagged).unwrap();
    assert_eq!(tag, "on");
    assert!(matches!(inner, Some(CborValue::Integer(4))));
    let off = CborValue::Mapping(vec![(text("off"), CborValue::Null)]);
    assert_eq!(decode_unit_tag(off).unwrap(), "off");
    assert!(decode_unit_tag(text("off")).is_err());
    assert!(decode_variant_value(CborValue::Null).is_err());
    assert!(decode_text_variant("t", None).is_err());
    assert_eq!(decode_text_variant("t", Some(text("x"))).unwrap(), "x");
    assert_eq!(
        decode_bytes_variant("t", Some(CborValue::Bytes(vec![9]))).unwrap(),
        vec![9]
    );
}

#[test]
fn bytes_are_compared() {
    assert!(bytes_eq(&[1, 2], &[1, 2]));
    assert!(bytes_before(&[1], &[1, 0]));
    assert!(!bytes_before(&[2], &[1, 9]));
}

#[test]
fn a_plain_value_is_what_its_literal_stands_for() {
    let value = ExprValue::Record(vec![
        ("a".to_string(), ExprValue::List(vec![ExprValue::Int(1), ExprValue::Null])),
        ("b".to_string(), ExprValue::SetOf(vec![ValueKey::Int(1), ValueKey::Int(2)])),
        (
            "c".to_string(),
            ExprValue::Record(vec![
                ("$tag".to_string(), ExprValue::Text("t".to_string())),
                ("$value".to_string(), ExprValue::Bytes(vec![7])),
            ]),
        ),
    ]);
    let literal = expr_value_to_literal(&value).unwrap();
    let back = literal_to_value(&literal).unwrap();
    assert_eq!(format!("{:?}", back), format!("{:?}", value));
    assert!(matches!(
        literal_to_value(&expr_value_to_literal(&ExprValue::Unit).unwrap()).unwrap(),
        ExprValue::Null
    ));
}

#[test]
fn a_value_of_a_type_is_what_its_cbor_reads_back_as() {
    let ty = TypeExpr::Record(vec![
        (
            "when".to_string(),
            TypeExpr::OptionOf(Box::new(TypeExpr::Primitive(TypePrimitive::Time))),
        ),
        (
            "by".to_string(),
            TypeExpr::Mapping(
                TypeMapKey::Int,
                Box::new(TypeExpr::Variant(vec![(
                    "on".to_string(),
                    TypeExpr::Primitive(TypePrimitive::Nat),
                )])),
            ),
        ),
    ]);
    let on = |n: u64| {
        ExprValue::Record(vec![
            ("$tag".to_string(), ExprValue::Text("on".to_string())),
            ("$value".to_string(), ExprValue::Nat(n)),
        ])
    };
    let value = ExprValue::Record(vec![
        (
            "by".to_string(),
            ExprValue::Mapping(vec![(ValueKey::Int(-5), on(1)), (ValueKey::Int(3), on(2))]),
        ),
        ("when".to_string(), ExprValue::TimeNs(9)),
    ]);
    let bytes = encode_value(&value).unwrap();
    let read = cbor_to_expr_value(&decode_cbor(&bytes).unwrap(), &ty, &no_schemas()).unwrap();
    assert_eq!(format!("{:?}", read), format!("{:?}", value));
}

#[test]
fn what_does_not_fit_a_type_is_shown() {
    let shown = |v: CborValue, t: TypeExpr| match cbor_to_expr_value(&v, &t, &no_schemas()) {
        Err(KernelError::Manifest(m)) => m,
        _ => panic!("it fits"),
    };
    let number = || Box::new(TypeExpr::Primitive(TypePrimitive::Int));
    let text = |t: &str| CborValue::Text(t.to_string());
    assert_eq!(
        shown(text("x"), TypeExpr::Record(vec![])),
        "expected record for schema, got Text(\"x\")"
    );
    assert_eq!(
        shown(CborValue::Null, TypeExpr::List(number())),
        "expected list for schema, got Null"
    );
    let map = CborValue::Mapping(vec![(text("b"), CborValue::Null), (text("a"), text("y"))]);
    assert_eq!(
        shown(map, TypeExpr::SetOf(number())),
        "expected set for schema, got Map({Text(\"a\"): Text(\"y\"), Text(\"b\"): Null})"
    );
    let list = CborValue::Array(vec![CborValue::Integer(5), CborValue::Bytes(vec![1])]);
    assert_eq!(
        shown(list, TypeExpr::Mapping(TypeMapKey::Text, number())),
        "expected map for schema, got Array([Integer(5), Bytes([1])])"
    );
}

fn circles() -> SchemaIndex {
    let mut schemas = NameMap::new();
    let to = |name: &str| TypeExpr::Ref(name.to_string());
    let number = TypeExpr::Primitive(TypePrimitive::Int);
    schemas.insert("round".to_string(), to("again"));
    schemas.insert(
        "again".to_string(),
        TypeExpr::OptionOf(Box::new(to("round"))),
    );
    schemas.insert(
        "tree".to_string(),
        TypeExpr::Record(vec![
            ("value".to_string(), number),
            ("kids".to_string(), TypeExpr::List(Box::new(to("tree")))),
        ]),
    );
    schemas.insert(
        "deep".to_string(),
        TypeExpr::Record(vec![("kid".to_string(), to("round"))]),
    );
    SchemaIndex { schemas }
}

#[test]
fn only_a_circle_that_is_come_to_matters() {
    let index = circles();
    let to = |name: &str| TypeExpr::Ref(name.to_string());
    assert!(index.settles(&TypeExpr::Primitive(TypePrimitive::Int)));
    assert!(index.settles(&to("tree")));
    assert!(index.settles(&to("missing")));
    assert!(!index.settles(&to("round")));
    assert!(!index.settles(&TypeExpr::OptionOf(Box::new(to("again")))));
    assert!(!index.settles(&to("deep")));
    assert!(!index.settles(&TypeExpr::List(Box::new(to("deep")))));
    let leaf = CborValue::Mapping(vec![
        (CborValue::Text("kids".to_string()), CborValue::Array(vec![])),
        (CborValue::Text("value".to_string()), CborValue::Integer(4)),
    ]);
    assert!(cbor_to_expr_value(&leaf, &to("tree"), &index).is_ok());
}
