//! Reading CBOR as a value of a given type.
use vstd::prelude::*;

use crate::cbor::{clone_bytes, lemma_array_tree, lemma_map_tree, trees, CborTree, CborValue};
use crate::cbor_text::{debug_text, show};
use crate::error::{is_manifest_error, KernelError};
use crate::hash::{is_hash_text, HashRef};
use crate::names::{lemma_name_index_is, name_index};
use crate::text::{join2, join3, lex_lt, str_eq, str_lt};
use crate::types::{among_parts, is_part, lemma_settle_step, lemma_type_settles, resolved, settled,
    settle_steps, type_settles, SchemaIndex, TypeExpr, TypeMapKey, TypePrimitive};
use crate::value::{entry_trees, field_trees, insert_entry, insert_key, key_trees, lemma_value_tree,
    map_insert, set_insert, value_trees, ExprValue, KeyTree, ValueKey, ValueTree};

pub mod laws;

verus! {

/// The fields with `name` bound to `v`, in name order.
pub open spec fn name_insert<V>(s: Seq<(Seq<char>, V)>, name: Seq<char>, v: V) -> Seq<
    (Seq<char>, V),
>
    decreases s.len(),
{
    if s.len() == 0 {
        seq![(name, v)]
    } else if s[0].0 == name {
        seq![(name, v)] + s.drop_first()
    } else if lex_lt(name, s[0].0) {
        seq![(name, v)] + s
    } else {
        seq![s[0]] + name_insert(s.drop_first(), name, v)
    }
}

/// Binds `name` to `v` among fields in name order.
pub fn insert_sorted<V: View>(fields: &mut Vec<(String, V)>, name: String, v: V)
    ensures
        field_trees(final(fields)@) == name_insert(field_trees(old(fields)@), name@, v@),
{
    let ghost s = field_trees(fields@);
    let ghost nt = name@;
    let ghost vt = v@;
    let mut i: usize = 0;
    assert(s.take(0) + name_insert(s.skip(0), nt, vt) =~= name_insert(s, nt, vt)) by {
        assert(s.skip(0) =~= s);
    }
    while i < fields.len()
        invariant
            i <= fields@.len(),
            s == field_trees(fields@),
            *fields == *old(fields),
            nt == name@,
            vt == v@,
            name_insert(s, nt, vt) == s.take(i as int) + name_insert(s.skip(i as int), nt, vt),
        decreases fields@.len() - i,
    {
        assert(s.skip(i as int)[0].0 == fields@[i as int].0@);
        assert(s.skip(i as int).drop_first() =~= s.skip(i + 1));
        if str_eq(fields[i].0.as_str(), name.as_str()) {
            fields.set(i, (name, v));
            assert(field_trees(fields@) =~= s.take(i as int) + (seq![(nt, vt)] + s.skip(i + 1)));
            return ;
        }
        if str_lt(name.as_str(), fields[i].0.as_str()) {
            fields.insert(i, (name, v));
            assert(field_trees(fields@) =~= s.take(i as int) + (seq![(nt, vt)] + s.skip(i as int)));
            return ;
        }
        assert(s.take(i as int) + (seq![s[i as int]] + name_insert(s.skip(i + 1), nt, vt))
            =~= s.take(i + 1) + name_insert(s.skip(i + 1), nt, vt));
        i += 1;
    }
    assert(s.take(i as int) + name_insert(s.skip(i as int), nt, vt) =~= s + seq![(nt, vt)]);
    fields.push((name, v));
    assert(field_trees(fields@) =~= s + seq![(nt, vt)]);
}

/// The index of the entry with the text key `name`, or the number of entries.
pub open spec fn text_index(entries: Seq<(CborTree, CborTree)>, name: Seq<char>) -> int
    decreases entries.len(),
{
    if entries.len() == 0 {
        0
    } else if entries[0].0 == CborTree::Text(name) {
        0
    } else {
        1 + text_index(entries.drop_first(), name)
    }
}

pub proof fn lemma_text_index(entries: Seq<(CborTree, CborTree)>, name: Seq<char>)
    ensures
        0 <= text_index(entries, name) <= entries.len(),
    decreases entries.len(),
{
    if entries.len() > 0 && entries[0].0 != CborTree::Text(name) {
        lemma_text_index(entries.drop_first(), name);
    }
}

/// The position of the entry with the text key `name`.
pub fn find_text(entries: &Vec<(CborValue, CborValue)>, name: &str) -> (r: usize)
    ensures
        r == text_index(crate::cbor::entry_trees(entries@), name@),
        r <= entries@.len(),
{
    let ghost s = crate::cbor::entry_trees(entries@);
    let mut i: usize = 0;
    assert(s.skip(0) =~= s);
    while i < entries.len()
        invariant
            i <= entries@.len(),
            s == crate::cbor::entry_trees(entries@),
            text_index(s, name@) == i + text_index(s.skip(i as int), name@),
        decreases entries@.len() - i,
    {
        assert(s.skip(i as int)[0].0 == entries@[i as int].0@);
        if let CborValue::Text(t) = &entries[i].0 {
            if str_eq(t.as_str(), name) {
                return i;
            }
        }
        assert(s.skip(i as int).drop_first() =~= s.skip(i + 1));
        i += 1;
    }
    i
}

/// The value of a primitive type.
pub open spec fn primitive_value(c: CborTree, p: TypePrimitive) -> Result<ValueTree, Seq<char>> {
    match p {
        TypePrimitive::Bool => match c {
            CborTree::Bool(b) => Ok(ValueTree::Bool(b)),
            _ => Err("expected bool"@),
        },
        TypePrimitive::Int => match c {
            CborTree::Integer(i) => if i64::MIN <= i <= i64::MAX {
                Ok(ValueTree::Int(i as i64))
            } else {
                Err("int out of range"@)
            },
            _ => Err("expected int"@),
        },
        TypePrimitive::Nat => match c {
            CborTree::Integer(i) => if i < 0 {
                Err("expected nat"@)
            } else if i <= u64::MAX {
                Ok(ValueTree::Nat(i as u64))
            } else {
                Err("nat out of range"@)
            },
            _ => Err("expected nat"@),
        },
        TypePrimitive::Dec128 => match c {
            CborTree::Text(t) => Ok(ValueTree::Dec128(t)),
            _ => Err("expected dec128 text"@),
        },
        TypePrimitive::Bytes => match c {
            CborTree::Bytes(b) => Ok(ValueTree::Bytes(b)),
            _ => Err("expected bytes"@),
        },
        TypePrimitive::Text => match c {
            CborTree::Text(t) => Ok(ValueTree::Text(t)),
            _ => Err("expected text"@),
        },
        TypePrimitive::Time => match c {
            CborTree::Integer(i) => if i >= 0 {
                Ok(ValueTree::TimeNs(#[verifier::truncate] (i as u64)))
            } else {
                Err("expected time_ns integer"@)
            },
            _ => Err("expected time_ns integer"@),
        },
        TypePrimitive::Duration => match c {
            CborTree::Integer(i) => Ok(ValueTree::DurationNs(#[verifier::truncate] (i as i64))),
            _ => Err("expected duration_ns integer"@),
        },
        TypePrimitive::Hash => match c {
            CborTree::Text(t) => if is_hash_text(t) {
                Ok(ValueTree::Hash(t))
            } else {
                Err("expected hash text"@)
            },
            _ => Err("expected hash text"@),
        },
        TypePrimitive::Uuid => match c {
            CborTree::Text(t) => Ok(ValueTree::Uuid(t)),
            _ => Err("expected uuid text"@),
        },
        TypePrimitive::Unit => Ok(ValueTree::Unit),
    }
}

/// A result over models says the same as one over values, with a manifest error.
pub open spec fn typed_result(
    r: Result<ExprValue, KernelError>,
    want: Result<ValueTree, Seq<char>>,
) -> bool {
    match (r, want) {
        (Ok(v), Ok(t)) => v@ == t,
        (Err(e), Err(t)) => is_manifest_error(e, t),
        _ => false,
    }
}

fn fault(text: &str) -> (r: KernelError)
    ensures
        is_manifest_error(r, text@),
{
    KernelError::Manifest(text.to_owned())
}

fn primitive_to_expr(value: &CborValue, prim: TypePrimitive) -> (r: Result<ExprValue, KernelError>)
    ensures
        typed_result(r, primitive_value(value@, prim)),
{
    match prim {
        TypePrimitive::Bool => match value {
            CborValue::Bool(b) => Ok(ExprValue::Bool(*b)),
            _ => Err(fault("expected bool")),
        },
        TypePrimitive::Int => match value {
            CborValue::Integer(i) => {
                let n: i128 = *i;
                if i64::MIN as i128 <= n && n <= i64::MAX as i128 {
                    Ok(ExprValue::Int(n as i64))
                } else {
                    Err(fault("int out of range"))
                }
            },
            _ => Err(fault("expected int")),
        },
        TypePrimitive::Nat => match value {
            CborValue::Integer(i) => {
                let n: i128 = *i;
                if n < 0 {
                    Err(fault("expected nat"))
                } else if n <= u64::MAX as i128 {
                    Ok(ExprValue::Nat(n as u64))
                } else {
                    Err(fault("nat out of range"))
                }
            },
            _ => Err(fault("expected nat")),
        },
        TypePrimitive::Dec128 => match value {
            CborValue::Text(t) => Ok(ExprValue::Dec128(t.clone())),
            _ => Err(fault("expected dec128 text")),
        },
        TypePrimitive::Bytes => match value {
            CborValue::Bytes(b) => Ok(ExprValue::Bytes(clone_bytes(b))),
            _ => Err(fault("expected bytes")),
        },
        TypePrimitive::Text => match value {
            CborValue::Text(t) => Ok(ExprValue::Text(t.clone())),
            _ => Err(fault("expected text")),
        },
        TypePrimitive::Time => match value {
            CborValue::Integer(i) => {
                let n: i128 = *i;
                if n >= 0 {
                    Ok(ExprValue::TimeNs(#[verifier::truncate] (n as u64)))
                } else {
                    Err(fault("expected time_ns integer"))
                }
            },
            _ => Err(fault("expected time_ns integer")),
        },
        TypePrimitive::Duration => match value {
            CborValue::Integer(i) => {
                let n: i128 = *i;
                Ok(ExprValue::DurationNs(#[verifier::truncate] (n as i64)))
            },
            _ => Err(fault("expected duration_ns integer")),
        },
        TypePrimitive::Hash => match value {
            CborValue::Text(t) => match HashRef::new(t.clone()) {
                Ok(h) => Ok(ExprValue::Hash(h)),
                Err(_) => Err(fault("expected hash text")),
            },
            _ => Err(fault("expected hash text")),
        },
        TypePrimitive::Uuid => match value {
            CborValue::Text(t) => Ok(ExprValue::Uuid(t.clone())),
            _ => Err(fault("expected uuid text")),
        },
        TypePrimitive::Unit => Ok(ExprValue::Unit),
    }
}

/// The key of a set whose elements have the type `ty`.
pub open spec fn set_key(c: CborTree, ty: TypeExpr) -> Result<KeyTree, Seq<char>> {
    match ty {
        TypeExpr::Primitive(TypePrimitive::Int) => match c {
            CborTree::Integer(i) => if i64::MIN <= i <= i64::MAX {
                Ok(KeyTree::Int(i as i64))
            } else {
                Err("int key out of range"@)
            },
            _ => Err("set key must be int"@),
        },
        TypeExpr::Primitive(TypePrimitive::Nat) => match c {
            CborTree::Integer(i) => if i < 0 {
                Err("set key must be nat"@)
            } else if i <= u64::MAX {
                Ok(KeyTree::Nat(i as u64))
            } else {
                Err("nat key out of range"@)
            },
            _ => Err("set key must be nat"@),
        },
        TypeExpr::Primitive(TypePrimitive::Text) => match c {
            CborTree::Text(t) => Ok(KeyTree::Text(t)),
            _ => Err("set key must be text"@),
        },
        TypeExpr::Primitive(TypePrimitive::Uuid) => match c {
            CborTree::Text(t) => Ok(KeyTree::Uuid(t)),
            _ => Err("set key must be uuid"@),
        },
        TypeExpr::Primitive(TypePrimitive::Hash) => match c {
            CborTree::Text(t) => Ok(KeyTree::Hash(t)),
            _ => Err("set key must be hash"@),
        },
        _ => Err("set keys must be comparable primitives (int|nat|text|uuid|hash)"@),
    }
}

/// The key of a map with keys of the kind `kind`.
pub open spec fn map_key(c: CborTree, kind: TypeMapKey) -> Result<KeyTree, Seq<char>> {
    match kind {
        TypeMapKey::Int => match c {
            CborTree::Integer(i) => if i64::MIN <= i <= i64::MAX {
                Ok(KeyTree::Int(i as i64))
            } else {
                Err("map key int out of range"@)
            },
            _ => Err("map key must be int"@),
        },
        TypeMapKey::Nat => match c {
            CborTree::Integer(i) => if i < 0 {
                Err("map key must be nat"@)
            } else if i <= u64::MAX {
                Ok(KeyTree::Nat(i as u64))
            } else {
                Err("map key nat out of range"@)
            },
            _ => Err("map key must be nat"@),
        },
        TypeMapKey::Text => match c {
            CborTree::Text(t) => Ok(KeyTree::Text(t)),
            _ => Err("map key must be text"@),
        },
        TypeMapKey::Uuid => match c {
            CborTree::Text(t) => Ok(KeyTree::Uuid(t)),
            _ => Err("map key must be uuid"@),
        },
        TypeMapKey::Hash => match c {
            CborTree::Text(t) => Ok(KeyTree::Hash(t)),
            _ => Err("map key must be hash"@),
        },
    }
}

pub open spec fn key_result(
    r: Result<ValueKey, KernelError>,
    want: Result<KeyTree, Seq<char>>,
) -> bool {
    match (r, want) {
        (Ok(v), Ok(t)) => v@ == t,
        (Err(e), Err(t)) => is_manifest_error(e, t),
        _ => false,
    }
}

fn value_key_from_cbor(value: &CborValue, elem: &TypeExpr) -> (r: Result<ValueKey, KernelError>)
    ensures
        key_result(r, set_key(value@, *elem)),
{
    match elem {
        TypeExpr::Primitive(TypePrimitive::Int) => match value {
            CborValue::Integer(i) => {
                let n: i128 = *i;
                if i64::MIN as i128 <= n && n <= i64::MAX as i128 {
                    Ok(ValueKey::Int(n as i64))
                } else {
                    Err(fault("int key out of range"))
                }
            },
            _ => Err(fault("set key must be int")),
        },
        TypeExpr::Primitive(TypePrimitive::Nat) => match value {
            CborValue::Integer(i) => {
                let n: i128 = *i;
                if n < 0 {
                    Err(fault("set key must be nat"))
                } else if n <= u64::MAX as i128 {
                    Ok(ValueKey::Nat(n as u64))
                } else {
                    Err(fault("nat key out of range"))
                }
            },
            _ => Err(fault("set key must be nat")),
        },
        TypeExpr::Primitive(TypePrimitive::Text) => match value {
            CborValue::Text(t) => Ok(ValueKey::Text(t.clone())),
            _ => Err(fault("set key must be text")),
        },
        TypeExpr::Primitive(TypePrimitive::Uuid) => match value {
            CborValue::Text(t) => Ok(ValueKey::Uuid(t.clone())),
            _ => Err(fault("set key must be uuid")),
        },
        TypeExpr::Primitive(TypePrimitive::Hash) => match value {
            CborValue::Text(t) => Ok(ValueKey::Hash(t.clone())),
            _ => Err(fault("set key must be hash")),
        },
        _ => Err(fault("set keys must be comparable primitives (int|nat|text|uuid|hash)")),
    }
}

fn value_key_from_map_key(value: &CborValue, kind: TypeMapKey) -> (r: Result<ValueKey, KernelError>)
    ensures
        key_result(r, map_key(value@, kind)),
{
    match kind {
        TypeMapKey::Int => match value {
            CborValue::Integer(i) => {
                let n: i128 = *i;
                if i64::MIN as i128 <= n && n <= i64::MAX as i128 {
                    Ok(ValueKey::Int(n as i64))
                } else {
                    Err(fault("map key int out of range"))
                }
            },
            _ => Err(fault("map key must be int")),
        },
        TypeMapKey::Nat => match value {
            CborValue::Integer(i) => {
                let n: i128 = *i;
                if n < 0 {
                    Err(fault("map key must be nat"))
                } else if n <= u64::MAX as i128 {
                    Ok(ValueKey::Nat(n as u64))
                } else {
                    Err(fault("map key nat out of range"))
                }
            },
            _ => Err(fault("map key must be nat")),
        },
        TypeMapKey::Text => match value {
            CborValue::Text(t) => Ok(ValueKey::Text(t.clone())),
            _ => Err(fault("map key must be text")),
        },
        TypeMapKey::Uuid => match value {
            CborValue::Text(t) => Ok(ValueKey::Uuid(t.clone())),
            _ => Err(fault("map key must be uuid")),
        },
        TypeMapKey::Hash => match value {
            CborValue::Text(t) => Ok(ValueKey::Hash(t.clone())),
            _ => Err(fault("map key must be hash")),
        },
    }
}

/// The error of a reference without a target.
pub open spec fn missing_schema(ty: TypeExpr) -> Seq<char> {
    match ty {
        TypeExpr::Ref(name) => "schema '"@ + name@ + "' not found for ref"@,
        _ => Seq::empty(),
    }
}

/// The tag of a variant, and the index of the entry that holds its value where there is one.
pub open spec fn variant_parts(c: CborTree) -> Result<(Seq<char>, Option<int>), Seq<char>> {
    match c {
        CborTree::Mapping(entries) => {
            let at = text_index(entries, "$tag"@);
            let value = text_index(entries, "$value"@);
            if at < entries.len() {
                match entries[at].1 {
                    CborTree::Text(tag) => Ok(
                        (
                            tag,
                            if value < entries.len() {
                                Some(value)
                            } else {
                                None
                            },
                        ),
                    ),
                    _ => Err("variant $tag must be text"@),
                }
            } else if entries.len() == 1 && entries[0].0 is Text {
                Ok((entries[0].0->Text_0, Some(0)))
            } else {
                Err("variant missing $tag field"@)
            }
        },
        _ => Err("expected variant map with $tag"@),
    }
}

/// The value that CBOR stands for under a type, or what is wrong with it.
pub open spec fn typed_value(
    c: CborTree,
    ty: TypeExpr,
    m: Map<Seq<char>, TypeExpr>,
) -> Result<ValueTree, Seq<char>>
    decreases c, settle_steps(m, ty), 0nat,
    when settled(m, ty)
{
    proof {
        lemma_settle_step(m, ty);
    }
    match ty {
        TypeExpr::Primitive(p) => primitive_value(c, p),
        TypeExpr::Record(fields) => match c {
            CborTree::Mapping(entries) => match typed_fields(entries, fields@, m) {
                Ok(values) => Ok(ValueTree::Record(values)),
                Err(e) => Err(e),
            },
            _ => Err("expected record for schema, got "@ + debug_text(c)),
        },
        TypeExpr::Variant(arms) => match variant_parts(c) {
            Err(e) => Err(e),
            Ok((tag, at)) => {
                let k = name_index(arms@, tag);
                if k < 0 || k >= arms@.len() {
                    Err("unknown variant tag '"@ + tag + "'"@)
                } else {
                    match resolved(m, arms@[k].1) {
                        None => Err(missing_schema(arms@[k].1)),
                        Some(t) => match (c, at) {
                            (CborTree::Mapping(entries), Some(i)) => if 0 <= i < entries.len() {
                                match typed_value(entries[i].1, t, m) {
                                    Ok(v) => Ok(
                                        ValueTree::Record(
                                            seq![
                                                ("$tag"@, ValueTree::Text(tag)),
                                                ("$value"@, v),
                                            ],
                                        ),
                                    ),
                                    Err(e) => Err(e),
                                }
                            } else {
                                Err(Seq::empty())
                            },
                            _ => Ok(
                                ValueTree::Record(seq![("$tag"@, ValueTree::Text(tag))]),
                            ),
                        },
                    }
                }
            },
        },
        TypeExpr::List(elem) => match c {
            CborTree::Array(items) => match resolved(m, *elem) {
                None => Err(missing_schema(*elem)),
                Some(t) => match typed_values(items, t, m) {
                    Ok(values) => Ok(ValueTree::List(values)),
                    Err(e) => Err(e),
                },
            },
            _ => Err("expected list for schema, got "@ + debug_text(c)),
        },
        TypeExpr::SetOf(elem) => match c {
            CborTree::Array(items) => match resolved(m, *elem) {
                None => Err(missing_schema(*elem)),
                Some(t) => match typed_set(items, t) {
                    Ok(keys) => Ok(ValueTree::SetOf(keys)),
                    Err(e) => Err(e),
                },
            },
            _ => Err("expected set for schema, got "@ + debug_text(c)),
        },
        TypeExpr::Mapping(kind, elem) => match c {
            CborTree::Mapping(entries) => match resolved(m, *elem) {
                None => Err(missing_schema(*elem)),
                Some(t) => match typed_entries(entries, kind, t, m) {
                    Ok(values) => Ok(ValueTree::Mapping(values)),
                    Err(e) => Err(e),
                },
            },
            _ => Err("expected map for schema, got "@ + debug_text(c)),
        },
        TypeExpr::OptionOf(inner) => match c {
            CborTree::Null => Ok(ValueTree::Null),
            _ => match resolved(m, *inner) {
                None => Err(missing_schema(*inner)),
                Some(t) => typed_value(c, t, m),
            },
        },
        TypeExpr::Ref(name) => if m.contains_key(name@) {
            typed_value(c, m[name@], m)
        } else {
            Err(missing_schema(ty))
        },
    }
}

/// The values of a list; of several faults the first counts.
pub open spec fn typed_values(
    items: Seq<CborTree>,
    ty: TypeExpr,
    m: Map<Seq<char>, TypeExpr>,
) -> Result<Seq<ValueTree>, Seq<char>>
    decreases items, 0nat, 0nat,
{
    if items.len() == 0 {
        Ok(Seq::empty())
    } else {
        match typed_values(items.drop_last(), ty, m) {
            Err(e) => Err(e),
            Ok(front) => match typed_value(items.last(), ty, m) {
                Err(e) => Err(e),
                Ok(v) => Ok(front.push(v)),
            },
        }
    }
}

/// The keys of a set.
pub open spec fn typed_set(items: Seq<CborTree>, ty: TypeExpr) -> Result<Seq<KeyTree>, Seq<char>>
    decreases items,
{
    if items.len() == 0 {
        Ok(Seq::empty())
    } else {
        match typed_set(items.drop_last(), ty) {
            Err(e) => Err(e),
            Ok(front) => match set_key(items.last(), ty) {
                Err(e) => Err(e),
                Ok(k) => Ok(set_insert(front, k)),
            },
        }
    }
}

/// The entries of a map.
pub open spec fn typed_entries(
    items: Seq<(CborTree, CborTree)>,
    kind: TypeMapKey,
    ty: TypeExpr,
    m: Map<Seq<char>, TypeExpr>,
) -> Result<Seq<(KeyTree, ValueTree)>, Seq<char>>
    decreases items, 0nat, 0nat,
{
    if items.len() == 0 {
        Ok(Seq::empty())
    } else {
        match typed_entries(items.drop_last(), kind, ty, m) {
            Err(e) => Err(e),
            Ok(front) => match map_key(items.last().0, kind) {
                Err(e) => Err(e),
                Ok(k) => match typed_value(items.last().1, ty, m) {
                    Err(e) => Err(e),
                    Ok(v) => Ok(map_insert(front, k, v)),
                },
            },
        }
    }
}

/// The fields of a record, in name order. A field that is not there is null where its type is an
/// option.
pub open spec fn typed_fields(
    entries: Seq<(CborTree, CborTree)>,
    fields: Seq<(String, TypeExpr)>,
    m: Map<Seq<char>, TypeExpr>,
) -> Result<Seq<(Seq<char>, ValueTree)>, Seq<char>>
    decreases entries, 0nat, fields.len(),
{
    if fields.len() == 0 {
        Ok(Seq::empty())
    } else {
        let name = fields.last().0@;
        let at = text_index(entries, name);
        match typed_fields(entries, fields.drop_last(), m) {
            Err(e) => Err(e),
            Ok(front) => match resolved(m, fields.last().1) {
                None => Err(missing_schema(fields.last().1)),
                Some(t) => if 0 <= at < entries.len() {
                    match typed_value(entries[at].1, t, m) {
                        Err(e) => Err(e),
                        Ok(v) => Ok(name_insert(front, name, v)),
                    }
                } else if t is OptionOf {
                    Ok(name_insert(front, name, ValueTree::Null))
                } else {
                    Err("record missing field '"@ + name + "' for event"@)
                },
            },
        }
    }
}

proof fn lemma_typed_values_fault(
    items: Seq<CborTree>,
    ty: TypeExpr,
    m: Map<Seq<char>, TypeExpr>,
    n: int,
)
    requires
        0 <= n <= items.len(),
        typed_values(items.take(n), ty, m) is Err,
    ensures
        typed_values(items, ty, m) == typed_values(items.take(n), ty, m),
    decreases items.len(),
{
    if n < items.len() {
        assert(items.drop_last().take(n) =~= items.take(n));
        lemma_typed_values_fault(items.drop_last(), ty, m, n);
    } else {
        assert(items.take(n) =~= items);
    }
}

proof fn lemma_typed_set_fault(items: Seq<CborTree>, ty: TypeExpr, n: int)
    requires
        0 <= n <= items.len(),
        typed_set(items.take(n), ty) is Err,
    ensures
        typed_set(items, ty) == typed_set(items.take(n), ty),
    decreases items.len(),
{
    if n < items.len() {
        assert(items.drop_last().take(n) =~= items.take(n));
        lemma_typed_set_fault(items.drop_last(), ty, n);
    } else {
        assert(items.take(n) =~= items);
    }
}

proof fn lemma_typed_entries_fault(
    items: Seq<(CborTree, CborTree)>,
    kind: TypeMapKey,
    ty: TypeExpr,
    m: Map<Seq<char>, TypeExpr>,
    n: int,
)
    requires
        0 <= n <= items.len(),
        typed_entries(items.take(n), kind, ty, m) is Err,
    ensures
        typed_entries(items, kind, ty, m) == typed_entries(items.take(n), kind, ty, m),
    decreases items.len(),
{
    if n < items.len() {
        assert(items.drop_last().take(n) =~= items.take(n));
        lemma_typed_entries_fault(items.drop_last(), kind, ty, m, n);
    } else {
        assert(items.take(n) =~= items);
    }
}

proof fn lemma_typed_fields_fault(
    entries: Seq<(CborTree, CborTree)>,
    fields: Seq<(String, TypeExpr)>,
    m: Map<Seq<char>, TypeExpr>,
    n: int,
)
    requires
        0 <= n <= fields.len(),
        typed_fields(entries, fields.take(n), m) is Err,
    ensures
        typed_fields(entries, fields, m) == typed_fields(entries, fields.take(n), m),
    decreases fields.len(),
{
    if n < fields.len() {
        assert(fields.drop_last().take(n) =~= fields.take(n));
        lemma_typed_fields_fault(entries, fields.drop_last(), m, n);
    } else {
        assert(fields.take(n) =~= fields);
    }
}

fn resolve_schema<'a>(schema: &'a TypeExpr, schemas: &'a SchemaIndex) -> (r: Result<
    &'a TypeExpr,
    KernelError,
>)
    ensures
        match (r, resolved(schemas.map(), *schema)) {
            (Ok(t), Some(u)) => *t == u,
            (Err(e), None) => is_manifest_error(e, missing_schema(*schema)),
            _ => false,
        },
{
    match schema {
        TypeExpr::Ref(name) => match schemas.get(name.as_str()) {
            Some(t) => Ok(t),
            None => Err(
                KernelError::Manifest(join3("schema '", name.as_str(), "' not found for ref")),
            ),
        },
        _ => Ok(schema),
    }
}

/// The parts of a variant.
fn decode_variant(value: &CborValue) -> (r: Result<(String, Option<usize>), KernelError>)
    ensures
        match (r, variant_parts(value@)) {
            (Ok((tag, at)), Ok((t, i))) => tag@ == t && match (at, i) {
                (Some(a), Some(b)) => a == b && value is Mapping && a < value->Mapping_0@.len(),
                (None, None) => true,
                _ => false,
            },
            (Err(e), Err(t)) => is_manifest_error(e, t),
            _ => false,
        },
{
    match value {
        CborValue::Mapping(entries) => {
            proof {
                lemma_map_tree(*value);
            }
            let ghost all = crate::cbor::entry_trees(entries@);
            let at: usize = find_text(entries, "$tag");
            if at < entries.len() {
                assert(all[at as int].1 == entries@[at as int].1@);
                match &entries[at].1 {
                    CborValue::Text(tag) => {
                        let inner: usize = find_text(entries, "$value");
                        if inner < entries.len() {
                            Ok((tag.clone(), Some(inner)))
                        } else {
                            Ok((tag.clone(), None))
                        }
                    },
                    _ => Err(fault("variant $tag must be text")),
                }
            } else {
                if entries.len() == 1 {
                    assert(all[0].0 == entries@[0].0@);
                    if let CborValue::Text(tag) = &entries[0].0 {
                        return Ok((tag.clone(), Some(0)));
                    }
                }
                Err(fault("variant missing $tag field"))
            }
        },
        _ => Err(fault("expected variant map with $tag")),
    }
}

/// The position of the arm named `tag`.
fn find_arm(arms: &Vec<(String, TypeExpr)>, tag: &str) -> (r: usize)
    ensures
        r == name_index(arms@, tag@),
        r <= arms@.len(),
{
    let mut i: usize = 0;
    while i < arms.len()
        invariant
            i <= arms@.len(),
            forall|j: int| 0 <= j < i ==> (#[trigger] arms@[j]).0@ != tag@,
        decreases arms@.len() - i,
    {
        if str_eq(arms[i].0.as_str(), tag) {
            proof {
                lemma_name_index_is(arms@, tag@, i as int);
            }
            return i;
        }
        i += 1;
    }
    proof {
        lemma_name_index_is(arms@, tag@, i as int);
    }
    i
}

/// The list that an array stands for.
fn list_from_cbor(
    value: &CborValue,
    items: &Vec<CborValue>,
    target: &TypeExpr,
    schemas: &SchemaIndex,
) -> (r: Result<ExprValue, KernelError>)
    requires
        type_settles(schemas.map(), *target),
        *value == CborValue::Array(*items),
    ensures
        typed_result(
            r,
            match typed_values(value@->Array_0, *target, schemas.map()) {
                Ok(values) => Ok(ValueTree::List(values)),
                Err(e) => Err(e),
            },
        ),
    decreases value@, 0nat, 0nat,
{
    broadcast use lemma_value_tree;

    proof {
        lemma_array_tree(*value);
    }
    let ghost m = schemas.map();
    proof {
        lemma_type_settles(m, *target);
    }
    let ghost all = trees(items@);
    let mut out: Vec<ExprValue> = Vec::new();
    let mut i: usize = 0;
    assert(all.take(0) =~= Seq::empty());
    assert(value_trees(out@) =~= Seq::empty());
    while i < items.len()
        invariant
            i <= items@.len(),
            value@ == CborTree::Array(all),
            all == trees(items@),
            m == schemas.map(),
            type_settles(m, *target),
            settled(m, *target),
            typed_values(all.take(i as int), *target, m) == Ok::<_, Seq<char>>(value_trees(out@)),
        decreases items@.len() - i,
    {
        assert(value@->Array_0[i as int] == items@[i as int]@);
        assert(all.take(i + 1).drop_last() =~= all.take(i as int));
        assert(all.take(i + 1).last() == items@[i as int]@);
        match cbor_to_expr_value(&items[i], target, schemas) {
            Err(e) => {
                proof {
                    lemma_typed_values_fault(all, *target, m, i + 1);
                }
                return Err(e);
            },
            Ok(v) => {
                let ghost before = value_trees(out@);
                out.push(v);
                assert(value_trees(out@) =~= before.push(v@));
            },
        }
        i += 1;
    }
    assert(all.take(i as int) =~= all);
    Ok(ExprValue::List(out))
}

/// The set that an array stands for.
fn set_from_cbor(items: &Vec<CborValue>, target: &TypeExpr) -> (r: Result<ExprValue, KernelError>)
    ensures
        typed_result(
            r,
            match typed_set(trees(items@), *target) {
                Ok(keys) => Ok(ValueTree::SetOf(keys)),
                Err(e) => Err(e),
            },
        ),
{
    broadcast use lemma_value_tree;

    let ghost all = trees(items@);
    let mut out: Vec<ValueKey> = Vec::new();
    let mut i: usize = 0;
    assert(all.take(0) =~= Seq::empty());
    assert(key_trees(out@) =~= Seq::empty());
    while i < items.len()
        invariant
            i <= items@.len(),
            all == trees(items@),
            typed_set(all.take(i as int), *target) == Ok::<_, Seq<char>>(key_trees(out@)),
        decreases items@.len() - i,
    {
        assert(all.take(i + 1).drop_last() =~= all.take(i as int));
        assert(all.take(i + 1).last() == items@[i as int]@);
        match value_key_from_cbor(&items[i], target) {
            Err(e) => {
                proof {
                    lemma_typed_set_fault(all, *target, i + 1);
                }
                return Err(e);
            },
            Ok(k) => {
                insert_key(&mut out, k);
            },
        }
        i += 1;
    }
    assert(all.take(i as int) =~= all);
    Ok(ExprValue::SetOf(out))
}

/// The map that a map stands for.
fn map_from_cbor(
    value: &CborValue,
    items: &Vec<(CborValue, CborValue)>,
    kind: TypeMapKey,
    target: &TypeExpr,
    schemas: &SchemaIndex,
) -> (r: Result<ExprValue, KernelError>)
    requires
        type_settles(schemas.map(), *target),
        *value == CborValue::Mapping(*items),
    ensures
        typed_result(
            r,
            match typed_entries(value@->Mapping_0, kind, *target, schemas.map()) {
                Ok(values) => Ok(ValueTree::Mapping(values)),
                Err(e) => Err(e),
            },
        ),
    decreases value@, 0nat, 0nat,
{
    broadcast use lemma_value_tree;

    proof {
        lemma_map_tree(*value);
    }
    let ghost m = schemas.map();
    proof {
        lemma_type_settles(m, *target);
    }
    let ghost all = crate::cbor::entry_trees(items@);
    let mut out: Vec<(ValueKey, ExprValue)> = Vec::new();
    let mut i: usize = 0;
    assert(all.take(0) =~= Seq::empty());
    assert(entry_trees(out@) =~= Seq::empty());
    while i < items.len()
        invariant
            i <= items@.len(),
            value@ == CborTree::Mapping(all),
            all == crate::cbor::entry_trees(items@),
            m == schemas.map(),
            type_settles(m, *target),
            settled(m, *target),
            typed_entries(all.take(i as int), kind, *target, m) == Ok::<_, Seq<char>>(
                entry_trees(out@),
            ),
        decreases items@.len() - i,
    {
        assert(value@->Mapping_0[i as int] == (items@[i as int].0@, items@[i as int].1@));
        assert(all.take(i + 1).drop_last() =~= all.take(i as int));
        assert(all.take(i + 1).last() == (items@[i as int].0@, items@[i as int].1@));
        let key = match value_key_from_map_key(&items[i].0, kind) {
            Err(e) => {
                proof {
                    lemma_typed_entries_fault(all, kind, *target, m, i + 1);
                }
                return Err(e);
            },
            Ok(k) => k,
        };
        match cbor_to_expr_value(&items[i].1, target, schemas) {
            Err(e) => {
                proof {
                    lemma_typed_entries_fault(all, kind, *target, m, i + 1);
                }
                return Err(e);
            },
            Ok(v) => {
                insert_entry(&mut out, key, v);
            },
        }
        i += 1;
    }
    assert(all.take(i as int) =~= all);
    Ok(ExprValue::Mapping(out))
}

/// The record that a map stands for.
fn record_from_cbor(
    value: &CborValue,
    entries: &Vec<(CborValue, CborValue)>,
    fields: &Vec<(String, TypeExpr)>,
    schemas: &SchemaIndex,
) -> (r: Result<ExprValue, KernelError>)
    requires
        forall|p: TypeExpr| #[trigger]
            among_parts(schemas.map(), fields@, p) ==> type_settles(schemas.map(), p),
        *value == CborValue::Mapping(*entries),
    ensures
        typed_result(
            r,
            match typed_fields(value@->Mapping_0, fields@, schemas.map()) {
                Ok(values) => Ok(ValueTree::Record(values)),
                Err(e) => Err(e),
            },
        ),
    decreases value@, 0nat, 0nat,
{
    broadcast use lemma_value_tree;

    proof {
        lemma_map_tree(*value);
    }
    let ghost m = schemas.map();
    let ghost all = crate::cbor::entry_trees(entries@);
    let mut out: Vec<(String, ExprValue)> = Vec::new();
    let mut i: usize = 0;
    assert(fields@.take(0) =~= Seq::empty());
    assert(field_trees(out@) =~= Seq::empty());
    while i < fields.len()
        invariant
            i <= fields@.len(),
            value@ == CborTree::Mapping(all),
            all == crate::cbor::entry_trees(entries@),
            m == schemas.map(),
            forall|p: TypeExpr| #[trigger] among_parts(m, fields@, p) ==> type_settles(m, p),
            typed_fields(all, fields@.take(i as int), m) == Ok::<_, Seq<char>>(field_trees(out@)),
        decreases fields@.len() - i,
    {
        assert(fields@.take(i + 1).drop_last() =~= fields@.take(i as int));
        assert(fields@.take(i + 1).last() == fields@[i as int]);
        let target = match resolve_schema(&fields[i].1, schemas) {
            Ok(t) => t,
            Err(e) => {
                proof {
                    lemma_typed_fields_fault(all, fields@, m, i + 1);
                }
                return Err(e);
            },
        };
        proof {
            assert(among_parts(m, fields@, *target));
            lemma_type_settles(m, *target);
        }
        let name = fields[i].0.clone();
        let at: usize = find_text(entries, name.as_str());
        let field = if at < entries.len() {
            assert(value@->Mapping_0[at as int].1 == entries@[at as int].1@);
            match cbor_to_expr_value(&entries[at].1, target, schemas) {
                Ok(v) => v,
                Err(e) => {
                    proof {
                        lemma_typed_fields_fault(all, fields@, m, i + 1);
                    }
                    return Err(e);
                },
            }
        } else if matches!(target, TypeExpr::OptionOf(_)) {
            ExprValue::Null
        } else {
            proof {
                lemma_typed_fields_fault(all, fields@, m, i + 1);
            }
            return Err(
                KernelError::Manifest(
                    join3("record missing field '", name.as_str(), "' for event"),
                ),
            );
        };
        insert_sorted(&mut out, name, field);
        i += 1;
    }
    assert(fields@.take(i as int) =~= fields@);
    Ok(ExprValue::Record(out))
}

/// Reads CBOR as a value of the type `schema`.
#[verifier::rlimit(60)]
pub fn cbor_to_expr_value(value: &CborValue, schema: &TypeExpr, schemas: &SchemaIndex) -> (r: Result<
    ExprValue,
    KernelError,
>)
    requires
        type_settles(schemas.map(), *schema),
    ensures
        typed_result(r, typed_value(value@, *schema, schemas.map())),
    decreases value@, settle_steps(schemas.map(), *schema), 1nat,
{
    broadcast use lemma_value_tree;

    let ghost m = schemas.map();
    proof {
        lemma_type_settles(m, *schema);
        lemma_settle_step(m, *schema);
    }
    match schema {
        TypeExpr::Primitive(p) => primitive_to_expr(value, *p),
        TypeExpr::Record(fields) => {
            let entries = match value {
                CborValue::Mapping(entries) => entries,
                _ => {
                    return Err(
                        KernelError::Manifest(
                            join2("expected record for schema, got ", show(value).as_str()),
                        ),
                    );
                },
            };
            proof {
                assert forall|p: TypeExpr| #[trigger] among_parts(m, fields@, p) implies type_settles(
                    m,
                    p,
                ) by {
                    assert(is_part(m, *schema, p));
                }
            }
            record_from_cbor(value, entries, fields, schemas)
        },
        TypeExpr::Variant(arms) => {
            let (tag, at) = match decode_variant(value) {
                Ok(parts) => parts,
                Err(e) => {
                    return Err(e);
                },
            };
            let k: usize = find_arm(arms, tag.as_str());
            if k >= arms.len() {
                return Err(
                    KernelError::Manifest(join3("unknown variant tag '", tag.as_str(), "'")),
                );
            }
            let target = match resolve_schema(&arms[k].1, schemas) {
                Ok(t) => t,
                Err(e) => {
                    return Err(e);
                },
            };
            proof {
                assert(resolved(m, arms@[k as int].1) == Some(*target));
                assert(is_part(m, *schema, *target));
                lemma_type_settles(m, *target);
            }
            let ghost tag_tree = tag@;
            let mut out: Vec<(String, ExprValue)> = Vec::new();
            out.push(("$tag".to_owned(), ExprValue::Text(tag)));
            match (value, at) {
                (CborValue::Mapping(entries), Some(i)) => {
                    proof {
                        lemma_map_tree(*value);
                        assert(value@->Mapping_0[i as int].1 == entries@[i as int].1@);
                    }
                    let inner = match cbor_to_expr_value(&entries[i].1, target, schemas) {
                        Ok(v) => v,
                        Err(e) => {
                            return Err(e);
                        },
                    };
                    let ghost t = inner@;
                    out.push(("$value".to_owned(), inner));
                    assert(field_trees(out@) =~= seq![
                        ("$tag"@, ValueTree::Text(tag_tree)),
                        ("$value"@, t),
                    ]);
                },
                _ => {
                    assert(field_trees(out@) =~= seq![("$tag"@, ValueTree::Text(tag_tree))]);
                },
            }
            Ok(ExprValue::Record(out))
        },
        TypeExpr::List(elem) => {
            let items = match value {
                CborValue::Array(items) => items,
                _ => {
                    return Err(
                        KernelError::Manifest(
                            join2("expected list for schema, got ", show(value).as_str()),
                        ),
                    );
                },
            };
            let target = match resolve_schema(elem, schemas) {
                Ok(t) => t,
                Err(e) => {
                    return Err(e);
                },
            };
            assert(is_part(m, *schema, *target));
            list_from_cbor(value, items, target, schemas)
        },
        TypeExpr::SetOf(elem) => {
            let items = match value {
                CborValue::Array(items) => items,
                _ => {
                    return Err(
                        KernelError::Manifest(
                            join2("expected set for schema, got ", show(value).as_str()),
                        ),
                    );
                },
            };
            let target = match resolve_schema(elem, schemas) {
                Ok(t) => t,
                Err(e) => {
                    return Err(e);
                },
            };
            proof {
                lemma_array_tree(*value);
            }
            set_from_cbor(items, target)
        },
        TypeExpr::Mapping(kind, elem) => {
            let entries = match value {
                CborValue::Mapping(entries) => entries,
                _ => {
                    return Err(
                        KernelError::Manifest(
                            join2("expected map for schema, got ", show(value).as_str()),
                        ),
                    );
                },
            };
            let target = match resolve_schema(elem, schemas) {
                Ok(t) => t,
                Err(e) => {
                    return Err(e);
                },
            };
            assert(is_part(m, *schema, *target));
            map_from_cbor(value, entries, *kind, target, schemas)
        },
        TypeExpr::OptionOf(inner) => match value {
            CborValue::Null => Ok(ExprValue::Null),
            _ => match resolve_schema(inner, schemas) {
                Ok(t) => {
                    assert(is_part(m, *schema, *t));
                    cbor_to_expr_value(value, t, schemas)
                },
                Err(e) => Err(e),
            },
        },
        TypeExpr::Ref(name) => match schemas.get(name.as_str()) {
            Some(t) => {
                assert(is_part(m, *schema, *t));
                cbor_to_expr_value(value, t, schemas)
            },
            None => Err(
                KernelError::Manifest(join3("schema '", name.as_str(), "' not found for ref")),
            ),
        },
    }
}

} // verus!
