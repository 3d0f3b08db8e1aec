//! Conversions between values, literals and CBOR.
use vstd::prelude::*;

use crate::hash::{is_hash_text, ContentHash, HashRef};
use crate::literal::{lemma_literal_tree, lit_entry_trees, lit_trees, literal_kind,
    LitTree, ValueLiteral};
use crate::text::join2;
use crate::value::{entry_trees, field_trees, get_field, insert_entry, insert_field, insert_key, key_trees,
    lemma_value_tree, map_insert, record_get, record_insert, set_insert, value_kind, value_trees, ExprValue, KeyTree,
    ValueKey, ValueTree};

use self::laws::{bytes_read_back, lemma_variant_bytes};

pub mod laws;

verus! {

/// The base64 text of some bytes, in the standard alphabet with padding.
pub uninterp spec fn base64_text(bytes: Seq<u8>) -> Seq<char>;

/// The bytes that a base64 text stands for, or the text of the error that it gives.
pub uninterp spec fn base64_parsed(text: Seq<char>) -> Result<Seq<u8>, Seq<char>>;

/// `encode` of `base64`'s standard engine. What it writes, `decode` of the same engine reads back.
#[verifier::external_body]
pub(crate) fn base64_encode(bytes: &[u8]) -> (r: String)
    ensures
        r@ == base64_text(bytes@),
        match base64_parsed(r@) {
            Ok(b) => b == bytes@,
            Err(_) => false,
        },
{
    base64::Engine::encode(&base64::engine::general_purpose::STANDARD, bytes)
}

/// `decode` of `base64`'s standard engine.
#[verifier::external_body]
pub(crate) fn base64_decode(text: &str) -> (r: Result<Vec<u8>, String>)
    ensures
        match r {
            Ok(bytes) => base64_parsed(text@) == Ok::<Seq<u8>, Seq<char>>(bytes@),
            Err(e) => base64_parsed(text@) == Err::<Seq<u8>, Seq<char>>(e@),
        },
{
    base64::Engine::decode(&base64::engine::general_purpose::STANDARD, text).map_err(
        |e| e.to_string(),
    )
}

/// The key that a literal stands for.
pub open spec fn lit_to_key(l: LitTree) -> Result<KeyTree, Seq<char>> {
    match l {
        LitTree::Int(i) => Ok(KeyTree::Int(i)),
        LitTree::Nat(n) => Ok(KeyTree::Nat(n)),
        LitTree::Text(t) => Ok(KeyTree::Text(t)),
        LitTree::Uuid(t) => Ok(KeyTree::Uuid(t)),
        LitTree::Hash(t) => Ok(KeyTree::Hash(t)),
        _ => Err("map/set key must be int|nat|text|uuid|hash, got "@ + literal_kind(l)),
    }
}

/// The value that a literal stands for, or what is wrong with it.
pub open spec fn lit_to_value(l: LitTree) -> Result<ValueTree, Seq<char>>
    decreases l,
{
    match l {
        LitTree::Null => Ok(ValueTree::Null),
        LitTree::Bool(b) => Ok(ValueTree::Bool(b)),
        LitTree::Int(i) => Ok(ValueTree::Int(i)),
        LitTree::Nat(n) => Ok(ValueTree::Nat(n)),
        LitTree::Dec128(t) => Ok(ValueTree::Dec128(t)),
        LitTree::Bytes(t) => match base64_parsed(t) {
            Ok(bytes) => Ok(ValueTree::Bytes(bytes)),
            Err(e) => Err("invalid bytes literal: "@ + e),
        },
        LitTree::Text(t) => Ok(ValueTree::Text(t)),
        LitTree::TimeNs(n) => Ok(ValueTree::TimeNs(n)),
        LitTree::DurationNs(i) => Ok(ValueTree::DurationNs(i)),
        LitTree::Hash(t) => Ok(ValueTree::Hash(t)),
        LitTree::Uuid(t) => Ok(ValueTree::Uuid(t)),
        LitTree::List(items) => match lits_to_values(items) {
            Ok(values) => Ok(ValueTree::List(values)),
            Err(e) => Err(e),
        },
        LitTree::SetOf(items) => match lits_to_set(items) {
            Ok(keys) => Ok(ValueTree::SetOf(keys)),
            Err(e) => Err(e),
        },
        LitTree::Mapping(items) => match lits_to_map(items) {
            Ok(entries) => Ok(ValueTree::Mapping(entries)),
            Err(e) => Err(e),
        },
        LitTree::SecretRef(alias, version) => Ok(
            ValueTree::Record(
                seq![
                    ("alias"@, ValueTree::Text(alias)),
                    ("version"@, ValueTree::Nat(version)),
                ],
            ),
        ),
        LitTree::Record(items) => match lits_to_fields(items) {
            Ok(fields) => Ok(ValueTree::Record(fields)),
            Err(e) => Err(e),
        },
        LitTree::Variant(tag, value) => match value {
            None => Ok(
                ValueTree::Record(
                    seq![("$tag"@, ValueTree::Text(tag)), ("$value"@, ValueTree::Unit)],
                ),
            ),
            Some(inner) => match lit_to_value(*inner) {
                Ok(v) => Ok(
                    ValueTree::Record(seq![("$tag"@, ValueTree::Text(tag)), ("$value"@, v)]),
                ),
                Err(e) => Err(e),
            },
        },
    }
}

/// The values of a list of literals; of several faults the first counts.
pub open spec fn lits_to_values(items: Seq<LitTree>) -> Result<Seq<ValueTree>, Seq<char>>
    decreases items,
{
    if items.len() == 0 {
        Ok(Seq::empty())
    } else {
        match lits_to_values(items.drop_last()) {
            Err(e) => Err(e),
            Ok(front) => match lit_to_value(items.last()) {
                Err(e) => Err(e),
                Ok(v) => Ok(front.push(v)),
            },
        }
    }
}

/// The set of the keys that literals stand for.
pub open spec fn lits_to_set(items: Seq<LitTree>) -> Result<Seq<KeyTree>, Seq<char>>
    decreases items,
{
    if items.len() == 0 {
        Ok(Seq::empty())
    } else {
        match lits_to_set(items.drop_last()) {
            Err(e) => Err(e),
            Ok(front) => match lit_to_key(items.last()) {
                Err(e) => Err(e),
                Ok(k) => Ok(set_insert(front, k)),
            },
        }
    }
}

/// The map of the entries of a map literal; of equal keys the last counts.
pub open spec fn lits_to_map(items: Seq<(LitTree, LitTree)>) -> Result<
    Seq<(KeyTree, ValueTree)>,
    Seq<char>,
>
    decreases items,
{
    if items.len() == 0 {
        Ok(Seq::empty())
    } else {
        match lits_to_map(items.drop_last()) {
            Err(e) => Err(e),
            Ok(front) => match lit_to_key(items.last().0) {
                Err(e) => Err(e),
                Ok(k) => match lit_to_value(items.last().1) {
                    Err(e) => Err(e),
                    Ok(v) => Ok(map_insert(front, k, v)),
                },
            },
        }
    }
}

/// The fields of a record literal.
pub open spec fn lits_to_fields(items: Seq<(Seq<char>, LitTree)>) -> Result<
    Seq<(Seq<char>, ValueTree)>,
    Seq<char>,
>
    decreases items,
{
    if items.len() == 0 {
        Ok(Seq::empty())
    } else {
        match lits_to_fields(items.drop_last()) {
            Err(e) => Err(e),
            Ok(front) => match lit_to_value(items.last().1) {
                Err(e) => Err(e),
                Ok(v) => Ok(record_insert(front, items.last().0, v)),
            },
        }
    }
}

/// A result over models says the same as one over values.
pub open spec fn value_result(r: Result<ExprValue, String>, want: Result<ValueTree, Seq<char>>) -> bool {
    match (r, want) {
        (Ok(v), Ok(t)) => v@ == t,
        (Err(e), Err(t)) => e@ == t,
        _ => false,
    }
}

fn literal_to_value_key(literal: &ValueLiteral) -> (r: Result<ValueKey, String>)
    ensures
        match (r, lit_to_key(literal@)) {
            (Ok(k), Ok(t)) => k@ == t,
            (Err(e), Err(t)) => e@ == t,
            _ => false,
        },
{
    match literal {
        ValueLiteral::Int(i) => Ok(ValueKey::Int(*i)),
        ValueLiteral::Nat(n) => Ok(ValueKey::Nat(*n)),
        ValueLiteral::Text(t) => Ok(ValueKey::Text(t.clone())),
        ValueLiteral::Uuid(t) => Ok(ValueKey::Uuid(t.clone())),
        ValueLiteral::Hash(h) => Ok(ValueKey::Hash(h.as_str().to_owned())),
        other => Err(join2("map/set key must be int|nat|text|uuid|hash, got ", other.kind())),
    }
}

/// The value that a literal stands for.
pub fn literal_to_value(literal: &ValueLiteral) -> (r: Result<ExprValue, String>)
    ensures
        value_result(r, lit_to_value(literal@)),
    decreases literal,
{
    broadcast use {lemma_literal_tree, lemma_value_tree};

    match literal {
        ValueLiteral::Null => Ok(ExprValue::Null),
        ValueLiteral::Bool(b) => Ok(ExprValue::Bool(*b)),
        ValueLiteral::Int(i) => Ok(ExprValue::Int(*i)),
        ValueLiteral::Nat(n) => Ok(ExprValue::Nat(*n)),
        ValueLiteral::Dec128(t) => Ok(ExprValue::Dec128(t.clone())),
        ValueLiteral::Bytes(t) => match base64_decode(t.as_str()) {
            Ok(bytes) => Ok(ExprValue::Bytes(bytes)),
            Err(e) => Err(join2("invalid bytes literal: ", e.as_str())),
        },
        ValueLiteral::Text(t) => Ok(ExprValue::Text(t.clone())),
        ValueLiteral::TimeNs(n) => Ok(ExprValue::TimeNs(*n)),
        ValueLiteral::DurationNs(i) => Ok(ExprValue::DurationNs(*i)),
        ValueLiteral::Hash(h) => Ok(ExprValue::Hash(h.clone())),
        ValueLiteral::Uuid(t) => Ok(ExprValue::Uuid(t.clone())),
        ValueLiteral::List(items) => {
            let ghost all = lit_trees(items@);
            let mut out: Vec<ExprValue> = Vec::new();
            let mut i: usize = 0;
            assert(all.take(0) =~= Seq::empty());
            assert(value_trees(out@) =~= Seq::empty());
            while i < items.len()
                invariant
                    i <= items@.len(),
                    *literal == ValueLiteral::List(*items),
                    literal@ == LitTree::List(all),
                    all == lit_trees(items@),
                    lits_to_values(all.take(i as int)) == Ok::<_, Seq<char>>(value_trees(out@)),
                decreases items@.len() - i,
            {
                assert(literal->List_0@[i as int] == items@[i as int]);
                assert(all.take(i + 1).drop_last() =~= all.take(i as int));
                assert(all.take(i + 1).last() == items@[i as int]@);
                match literal_to_value(&items[i]) {
                    Err(e) => {
                        proof {
                            lemma_values_fault(all, i + 1);
                        }
                        return Err(e);
                    },
                    Ok(v) => {
                        let ghost before = value_trees(out@);
                        out.push(v);
                        assert(value_trees(out@) =~= before.push(v@));
                    },
                }
                i += 1;
            }
            assert(all.take(i as int) =~= all);
            Ok(ExprValue::List(out))
        },
        ValueLiteral::SetOf(items) => {
            let ghost all = lit_trees(items@);
            let mut out: Vec<ValueKey> = Vec::new();
            let mut i: usize = 0;
            assert(all.take(0) =~= Seq::empty());
            assert(key_trees(out@) =~= Seq::empty());
            while i < items.len()
                invariant
                    i <= items@.len(),
                    literal@ == LitTree::SetOf(all),
                    all == lit_trees(items@),
                    lits_to_set(all.take(i as int)) == Ok::<_, Seq<char>>(key_trees(out@)),
                decreases items@.len() - i,
            {
                assert(all.take(i + 1).drop_last() =~= all.take(i as int));
                assert(all.take(i + 1).last() == items@[i as int]@);
                match literal_to_value_key(&items[i]) {
                    Err(e) => {
                        proof {
                            lemma_set_fault(all, i + 1);
                        }
                        return Err(e);
                    },
                    Ok(k) => {
                        insert_key(&mut out, k);
                    },
                }
                i += 1;
            }
            assert(all.take(i as int) =~= all);
            Ok(ExprValue::SetOf(out))
        },
        ValueLiteral::Mapping(items) => {
            let ghost all = lit_entry_trees(items@);
            let mut out: Vec<(ValueKey, ExprValue)> = Vec::new();
            let mut i: usize = 0;
            assert(all.take(0) =~= Seq::empty());
            assert(entry_trees(out@) =~= Seq::empty());
            while i < items.len()
                invariant
                    i <= items@.len(),
                    *literal == ValueLiteral::Mapping(*items),
                    literal@ == LitTree::Mapping(all),
                    all == lit_entry_trees(items@),
                    lits_to_map(all.take(i as int)) == Ok::<_, Seq<char>>(entry_trees(out@)),
                decreases items@.len() - i,
            {
                assert(literal->Mapping_0@[i as int] == items@[i as int]);
                assert(all.take(i + 1).drop_last() =~= all.take(i as int));
                assert(all.take(i + 1).last() == (items@[i as int].0@, items@[i as int].1@));
                let key = match literal_to_value_key(&items[i].0) {
                    Err(e) => {
                        proof {
                            lemma_map_fault(all, i + 1);
                        }
                        return Err(e);
                    },
                    Ok(k) => k,
                };
                match literal_to_value(&items[i].1) {
                    Err(e) => {
                        proof {
                            lemma_map_fault(all, i + 1);
                        }
                        return Err(e);
                    },
                    Ok(v) => {
                        insert_entry(&mut out, key, v);
                    },
                }
                i += 1;
            }
            assert(all.take(i as int) =~= all);
            Ok(ExprValue::Mapping(out))
        },
        ValueLiteral::SecretRef(alias, version) => {
            let mut out: Vec<(String, ExprValue)> = Vec::new();
            out.push(("alias".to_owned(), ExprValue::Text(alias.clone())));
            out.push(("version".to_owned(), ExprValue::Nat(*version)));
            assert(field_trees(out@) =~= seq![
                ("alias"@, ValueTree::Text(alias@)),
                ("version"@, ValueTree::Nat(*version)),
            ]);
            Ok(ExprValue::Record(out))
        },
        ValueLiteral::Record(items) => {
            let ghost all = field_trees(items@);
            let mut out: Vec<(String, ExprValue)> = Vec::new();
            let mut i: usize = 0;
            assert(all.take(0) =~= Seq::empty());
            assert(field_trees(out@) =~= Seq::empty());
            while i < items.len()
                invariant
                    i <= items@.len(),
                    *literal == ValueLiteral::Record(*items),
                    literal@ == LitTree::Record(all),
                    all == field_trees(items@),
                    lits_to_fields(all.take(i as int)) == Ok::<_, Seq<char>>(field_trees(out@)),
                decreases items@.len() - i,
            {
                assert(literal->Record_0@[i as int] == items@[i as int]);
                assert(all.take(i + 1).drop_last() =~= all.take(i as int));
                assert(all.take(i + 1).last() == (items@[i as int].0@, items@[i as int].1@));
                match literal_to_value(&items[i].1) {
                    Err(e) => {
                        proof {
                            lemma_fields_fault(all, i + 1);
                        }
                        return Err(e);
                    },
                    Ok(v) => {
                        insert_field(&mut out, items[i].0.clone(), v);
                    },
                }
                i += 1;
            }
            assert(all.take(i as int) =~= all);
            Ok(ExprValue::Record(out))
        },
        ValueLiteral::Variant(tag, value) => {
            let mut out: Vec<(String, ExprValue)> = Vec::new();
            out.push(("$tag".to_owned(), ExprValue::Text(tag.clone())));
            let inner = match value {
                Some(inner) => match literal_to_value(inner) {
                    Ok(v) => v,
                    Err(e) => {
                        return Err(e);
                    },
                },
                None => ExprValue::Unit,
            };
            let ghost t = inner@;
            out.push(("$value".to_owned(), inner));
            assert(field_trees(out@) =~= seq![("$tag"@, ValueTree::Text(tag@)), ("$value"@, t)]);
            Ok(ExprValue::Record(out))
        },
    }
}

/// A fault in a prefix is the fault of the whole.
proof fn lemma_values_fault(items: Seq<LitTree>, n: int)
    requires
        0 <= n <= items.len(),
        lits_to_values(items.take(n)) is Err,
    ensures
        lits_to_values(items) == lits_to_values(items.take(n)),
    decreases items.len(),
{
    if n < items.len() {
        assert(items.drop_last().take(n) =~= items.take(n));
        lemma_values_fault(items.drop_last(), n);
    } else {
        assert(items.take(n) =~= items);
    }
}

proof fn lemma_set_fault(items: Seq<LitTree>, n: int)
    requires
        0 <= n <= items.len(),
        lits_to_set(items.take(n)) is Err,
    ensures
        lits_to_set(items) == lits_to_set(items.take(n)),
    decreases items.len(),
{
    if n < items.len() {
        assert(items.drop_last().take(n) =~= items.take(n));
        lemma_set_fault(items.drop_last(), n);
    } else {
        assert(items.take(n) =~= items);
    }
}

proof fn lemma_map_fault(items: Seq<(LitTree, LitTree)>, n: int)
    requires
        0 <= n <= items.len(),
        lits_to_map(items.take(n)) is Err,
    ensures
        lits_to_map(items) == lits_to_map(items.take(n)),
    decreases items.len(),
{
    if n < items.len() {
        assert(items.drop_last().take(n) =~= items.take(n));
        lemma_map_fault(items.drop_last(), n);
    } else {
        assert(items.take(n) =~= items);
    }
}

proof fn lemma_fields_fault(items: Seq<(Seq<char>, LitTree)>, n: int)
    requires
        0 <= n <= items.len(),
        lits_to_fields(items.take(n)) is Err,
    ensures
        lits_to_fields(items) == lits_to_fields(items.take(n)),
    decreases items.len(),
{
    if n < items.len() {
        assert(items.drop_last().take(n) =~= items.take(n));
        lemma_fields_fault(items.drop_last(), n);
    } else {
        assert(items.take(n) =~= items);
    }
}

/// Whether every hash among the keys of a value is the text of a digest.
pub open spec fn hash_keys_valid(v: ValueTree) -> bool
    decreases v,
{
    match v {
        ValueTree::List(items) => forall|i: int|
            0 <= i < items.len() ==> hash_keys_valid(#[trigger] items[i]),
        ValueTree::SetOf(keys) => forall|i: int|
            0 <= i < keys.len() ==> hash_key_valid(#[trigger] keys[i]),
        ValueTree::Mapping(entries) => forall|i: int|
            0 <= i < entries.len() ==> hash_key_valid((#[trigger] entries[i]).0)
                && hash_keys_valid(entries[i].1),
        ValueTree::Record(fields) => forall|i: int|
            0 <= i < fields.len() ==> hash_keys_valid((#[trigger] fields[i]).1),
        _ => true,
    }
}

pub open spec fn hash_key_valid(k: KeyTree) -> bool {
    k matches KeyTree::Hash(t) ==> is_hash_text(t)
}

/// The literal of a key.
pub open spec fn key_to_lit(k: KeyTree) -> LitTree {
    match k {
        KeyTree::Int(i) => LitTree::Int(i),
        KeyTree::Nat(n) => LitTree::Nat(n),
        KeyTree::Text(t) => LitTree::Text(t),
        KeyTree::Hash(t) => LitTree::Hash(t),
        KeyTree::Uuid(t) => LitTree::Uuid(t),
    }
}

/// Whether a record stands for a variant: it has the two fields `$tag` and `$value` alone.
pub open spec fn is_variant_record(fields: Seq<(Seq<char>, ValueTree)>) -> bool {
    fields.len() == 2 && record_get(fields, "$tag"@) is Some && record_get(fields, "$value"@)
        is Some
}

/// The literal of a value, or what is wrong with it.
pub open spec fn value_to_lit(v: ValueTree) -> Result<LitTree, Seq<char>>
    decreases v, 1int,
{
    match v {
        ValueTree::Unit => Ok(LitTree::Null),
        ValueTree::Null => Ok(LitTree::Null),
        ValueTree::Bool(b) => Ok(LitTree::Bool(b)),
        ValueTree::Int(i) => Ok(LitTree::Int(i)),
        ValueTree::Nat(n) => Ok(LitTree::Nat(n)),
        ValueTree::Dec128(t) => Ok(LitTree::Dec128(t)),
        ValueTree::Bytes(b) => Ok(LitTree::Bytes(base64_text(b))),
        ValueTree::Text(t) => Ok(LitTree::Text(t)),
        ValueTree::TimeNs(n) => Ok(LitTree::TimeNs(n)),
        ValueTree::DurationNs(i) => Ok(LitTree::DurationNs(i)),
        ValueTree::Hash(t) => Ok(LitTree::Hash(t)),
        ValueTree::Uuid(t) => Ok(LitTree::Uuid(t)),
        ValueTree::List(items) => match values_to_lits(items) {
            Ok(lits) => Ok(LitTree::List(lits)),
            Err(e) => Err(e),
        },
        ValueTree::SetOf(keys) => Ok(
            LitTree::SetOf(Seq::new(keys.len(), |i: int| key_to_lit(keys[i]))),
        ),
        ValueTree::Mapping(entries) => match entries_to_lits(entries) {
            Ok(lits) => Ok(LitTree::Mapping(lits)),
            Err(e) => Err(e),
        },
        ValueTree::Record(fields) => if is_variant_record(fields) {
            match record_get(fields, "$tag"@) {
                Some(ValueTree::Text(tag)) => match field_to_lit(fields, "$value"@) {
                    None => Ok(LitTree::Variant(tag, None)),
                    Some(Ok(l)) => Ok(LitTree::Variant(tag, Some(Box::new(l)))),
                    Some(Err(e)) => Err(e),
                },
                Some(other) => Err("variant $tag must be text, got "@ + value_kind(other)),
                None => Err(Seq::empty()),
            }
        } else {
            match fields_to_lits(fields) {
                Ok(lits) => Ok(LitTree::Record(lits)),
                Err(e) => Err(e),
            }
        },
    }
}

/// The literal of the field `name`, where the field is there and holds more than unit or null.
pub open spec fn field_to_lit(fields: Seq<(Seq<char>, ValueTree)>, name: Seq<char>) -> Option<
    Result<LitTree, Seq<char>>,
>
    decreases fields, 0int,
{
    if fields.len() == 0 {
        None
    } else if fields[0].0 == name {
        match fields[0].1 {
            ValueTree::Unit => None,
            ValueTree::Null => None,
            other => Some(value_to_lit(fields[0].1)),
        }
    } else {
        field_to_lit(fields.drop_first(), name)
    }
}

pub open spec fn values_to_lits(items: Seq<ValueTree>) -> Result<Seq<LitTree>, Seq<char>>
    decreases items, 0int,
{
    if items.len() == 0 {
        Ok(Seq::empty())
    } else {
        match values_to_lits(items.drop_last()) {
            Err(e) => Err(e),
            Ok(front) => match value_to_lit(items.last()) {
                Err(e) => Err(e),
                Ok(l) => Ok(front.push(l)),
            },
        }
    }
}

pub open spec fn entries_to_lits(items: Seq<(KeyTree, ValueTree)>) -> Result<
    Seq<(LitTree, LitTree)>,
    Seq<char>,
>
    decreases items, 0int,
{
    if items.len() == 0 {
        Ok(Seq::empty())
    } else {
        match entries_to_lits(items.drop_last()) {
            Err(e) => Err(e),
            Ok(front) => match value_to_lit(items.last().1) {
                Err(e) => Err(e),
                Ok(l) => Ok(front.push((key_to_lit(items.last().0), l))),
            },
        }
    }
}

pub open spec fn fields_to_lits(items: Seq<(Seq<char>, ValueTree)>) -> Result<
    Seq<(Seq<char>, LitTree)>,
    Seq<char>,
>
    decreases items, 0int,
{
    if items.len() == 0 {
        Ok(Seq::empty())
    } else {
        match fields_to_lits(items.drop_last()) {
            Err(e) => Err(e),
            Ok(front) => match value_to_lit(items.last().1) {
                Err(e) => Err(e),
                Ok(l) => Ok(record_insert(front, items.last().0, l)),
            },
        }
    }
}

proof fn lemma_values_lits_fault(items: Seq<ValueTree>, n: int)
    requires
        0 <= n <= items.len(),
        values_to_lits(items.take(n)) is Err,
    ensures
        values_to_lits(items) == values_to_lits(items.take(n)),
    decreases items.len(),
{
    if n < items.len() {
        assert(items.drop_last().take(n) =~= items.take(n));
        lemma_values_lits_fault(items.drop_last(), n);
    } else {
        assert(items.take(n) =~= items);
    }
}

proof fn lemma_entries_lits_fault(items: Seq<(KeyTree, ValueTree)>, n: int)
    requires
        0 <= n <= items.len(),
        entries_to_lits(items.take(n)) is Err,
    ensures
        entries_to_lits(items) == entries_to_lits(items.take(n)),
    decreases items.len(),
{
    if n < items.len() {
        assert(items.drop_last().take(n) =~= items.take(n));
        lemma_entries_lits_fault(items.drop_last(), n);
    } else {
        assert(items.take(n) =~= items);
    }
}

proof fn lemma_fields_lits_fault(items: Seq<(Seq<char>, ValueTree)>, n: int)
    requires
        0 <= n <= items.len(),
        fields_to_lits(items.take(n)) is Err,
    ensures
        fields_to_lits(items) == fields_to_lits(items.take(n)),
    decreases items.len(),
{
    if n < items.len() {
        assert(items.drop_last().take(n) =~= items.take(n));
        lemma_fields_lits_fault(items.drop_last(), n);
    } else {
        assert(items.take(n) =~= items);
    }
}

/// What `field_to_lit` says of the field that `record_get` finds.
proof fn lemma_field_to_lit(fields: Seq<(Seq<char>, ValueTree)>, name: Seq<char>)
    ensures
        field_to_lit(fields, name) == match record_get(fields, name) {
            None => None,
            Some(ValueTree::Unit) => None,
            Some(ValueTree::Null) => None,
            Some(v) => Some(value_to_lit(v)),
        },
    decreases fields.len(),
{
    if fields.len() > 0 && fields[0].0 != name {
        lemma_field_to_lit(fields.drop_first(), name);
    }
}

fn hash_key_known(key: &ValueKey) -> (r: bool)
    ensures
        r == hash_key_valid(key@),
{
    match key {
        ValueKey::Hash(t) => ContentHash::from_hex_str(t.as_str()).is_ok(),
        _ => true,
    }
}

/// Whether every hash among the keys of a value is the text of a digest.
pub fn hash_keys_known(value: &ExprValue) -> (r: bool)
    ensures
        r == hash_keys_valid(value@),
    decreases value,
{
    broadcast use lemma_value_tree;

    match value {
        ExprValue::List(items) => {
            let mut i: usize = 0;
            while i < items.len()
                invariant
                    i <= items@.len(),
                    *value == ExprValue::List(*items),
                    value@ == ValueTree::List(value_trees(items@)),
                    forall|k: int|
                        0 <= k < i ==> hash_keys_valid(#[trigger] value_trees(items@)[k]),
                decreases items@.len() - i,
            {
                assert(value->List_0@[i as int] == items@[i as int]);
                assert(value_trees(items@)[i as int] == items@[i as int]@);
                if !hash_keys_known(&items[i]) {
                    assert(value@->List_0[i as int] == items@[i as int]@);
                    return false;
                }
                i += 1;
            }
            true
        },
        ExprValue::SetOf(keys) => {
            let mut i: usize = 0;
            while i < keys.len()
                invariant
                    i <= keys@.len(),
                    value@ == ValueTree::SetOf(key_trees(keys@)),
                    forall|k: int| 0 <= k < i ==> hash_key_valid(#[trigger] key_trees(keys@)[k]),
                decreases keys@.len() - i,
            {
                assert(key_trees(keys@)[i as int] == keys@[i as int]@);
                if !hash_key_known(&keys[i]) {
                    assert(value@->SetOf_0[i as int] == keys@[i as int]@);
                    return false;
                }
                i += 1;
            }
            true
        },
        ExprValue::Mapping(items) => {
            let mut i: usize = 0;
            while i < items.len()
                invariant
                    i <= items@.len(),
                    *value == ExprValue::Mapping(*items),
                    value@ == ValueTree::Mapping(entry_trees(items@)),
                    forall|k: int|
                        0 <= k < i ==> hash_key_valid((#[trigger] entry_trees(items@)[k]).0)
                            && hash_keys_valid(entry_trees(items@)[k].1),
                decreases items@.len() - i,
            {
                assert(value->Mapping_0@[i as int] == items@[i as int]);
                assert(entry_trees(items@)[i as int].1 == items@[i as int].1@);
                if !hash_key_known(&items[i].0) || !hash_keys_known(&items[i].1) {
                    assert(value@->Mapping_0[i as int] == (
                        items@[i as int].0@,
                        items@[i as int].1@,
                    ));
                    return false;
                }
                i += 1;
            }
            true
        },
        ExprValue::Record(items) => {
            let mut i: usize = 0;
            while i < items.len()
                invariant
                    i <= items@.len(),
                    *value == ExprValue::Record(*items),
                    value@ == ValueTree::Record(field_trees(items@)),
                    forall|k: int|
                        0 <= k < i ==> hash_keys_valid((#[trigger] field_trees(items@)[k]).1),
                decreases items@.len() - i,
            {
                assert(value->Record_0@[i as int] == items@[i as int]);
                assert(field_trees(items@)[i as int].1 == items@[i as int].1@);
                if !hash_keys_known(&items[i].1) {
                    assert(value@->Record_0[i as int].1 == items@[i as int].1@);
                    return false;
                }
                i += 1;
            }
            true
        },
        _ => true,
    }
}

fn value_key_to_literal(key: &ValueKey) -> (r: ValueLiteral)
    requires
        hash_key_valid(key@),
    ensures
        r@ == key_to_lit(key@),
{
    match key {
        ValueKey::Int(i) => ValueLiteral::Int(*i),
        ValueKey::Nat(n) => ValueLiteral::Nat(*n),
        ValueKey::Text(t) => ValueLiteral::Text(t.clone()),
        ValueKey::Hash(t) => match HashRef::new(t.clone()) {
            Ok(h) => ValueLiteral::Hash(h),
            Err(_) => ValueLiteral::Null,
        },
        ValueKey::Uuid(t) => ValueLiteral::Uuid(t.clone()),
    }
}

/// The literal of a value. Where there is one, its byte strings are read back.
#[verifier::rlimit(40)]
pub fn expr_value_to_literal(value: &ExprValue) -> (r: Result<ValueLiteral, String>)
    requires
        hash_keys_valid(value@),
    ensures
        match (r, value_to_lit(value@)) {
            (Ok(l), Ok(t)) => l@ == t,
            (Err(e), Err(t)) => e@ == t,
            _ => false,
        },
        r is Ok ==> bytes_read_back(value@),
    decreases value,
{
    broadcast use {lemma_literal_tree, lemma_value_tree};

    match value {
        ExprValue::Unit => Ok(ValueLiteral::Null),
        ExprValue::Null => Ok(ValueLiteral::Null),
        ExprValue::Bool(b) => Ok(ValueLiteral::Bool(*b)),
        ExprValue::Int(i) => Ok(ValueLiteral::Int(*i)),
        ExprValue::Nat(n) => Ok(ValueLiteral::Nat(*n)),
        ExprValue::Dec128(t) => Ok(ValueLiteral::Dec128(t.clone())),
        ExprValue::Bytes(b) => Ok(ValueLiteral::Bytes(base64_encode(b.as_slice()))),
        ExprValue::Text(t) => Ok(ValueLiteral::Text(t.clone())),
        ExprValue::TimeNs(n) => Ok(ValueLiteral::TimeNs(*n)),
        ExprValue::DurationNs(i) => Ok(ValueLiteral::DurationNs(*i)),
        ExprValue::Hash(h) => Ok(ValueLiteral::Hash(h.clone())),
        ExprValue::Uuid(t) => Ok(ValueLiteral::Uuid(t.clone())),
        ExprValue::List(items) => {
            let ghost all = value_trees(items@);
            let mut out: Vec<ValueLiteral> = Vec::new();
            let mut i: usize = 0;
            assert(all.take(0) =~= Seq::empty());
            assert(lit_trees(out@) =~= Seq::empty());
            while i < items.len()
                invariant
                    i <= items@.len(),
                    *value == ExprValue::List(*items),
                    value@ == ValueTree::List(all),
                    hash_keys_valid(value@),
                    all == value_trees(items@),
                    values_to_lits(all.take(i as int)) == Ok::<_, Seq<char>>(lit_trees(out@)),
                    forall|k: int| 0 <= k < i ==> bytes_read_back(#[trigger] all[k]),
                decreases items@.len() - i,
            {
                assert(value->List_0@[i as int] == items@[i as int]);
                assert(value@->List_0[i as int] == items@[i as int]@);
                assert(all.take(i + 1).drop_last() =~= all.take(i as int));
                assert(all.take(i + 1).last() == items@[i as int]@);
                match expr_value_to_literal(&items[i]) {
                    Err(e) => {
                        proof {
                            lemma_values_lits_fault(all, i + 1);
                        }
                        return Err(e);
                    },
                    Ok(l) => {
                        let ghost before = lit_trees(out@);
                        out.push(l);
                        assert(lit_trees(out@) =~= before.push(l@));
                    },
                }
                i += 1;
            }
            assert(all.take(i as int) =~= all);
            Ok(ValueLiteral::List(out))
        },
        ExprValue::SetOf(keys) => {
            let mut out: Vec<ValueLiteral> = Vec::new();
            let mut i: usize = 0;
            while i < keys.len()
                invariant
                    i == out@.len(),
                    i <= keys@.len(),
                    value@ == ValueTree::SetOf(key_trees(keys@)),
                    hash_keys_valid(value@),
                    forall|k: int|
                        0 <= k < i ==> (#[trigger] out@[k])@ == key_to_lit(keys@[k]@),
                decreases keys@.len() - i,
            {
                assert(value@->SetOf_0[i as int] == keys@[i as int]@);
                out.push(value_key_to_literal(&keys[i]));
                i += 1;
            }
            assert(lit_trees(out@) =~= Seq::new(
                key_trees(keys@).len(),
                |i: int| key_to_lit(key_trees(keys@)[i]),
            ));
            Ok(ValueLiteral::SetOf(out))
        },
        ExprValue::Mapping(items) => {
            let ghost all = entry_trees(items@);
            let mut out: Vec<(ValueLiteral, ValueLiteral)> = Vec::new();
            let mut i: usize = 0;
            assert(all.take(0) =~= Seq::empty());
            assert(lit_entry_trees(out@) =~= Seq::empty());
            while i < items.len()
                invariant
                    i <= items@.len(),
                    *value == ExprValue::Mapping(*items),
                    value@ == ValueTree::Mapping(all),
                    hash_keys_valid(value@),
                    all == entry_trees(items@),
                    entries_to_lits(all.take(i as int)) == Ok::<_, Seq<char>>(
                        lit_entry_trees(out@),
                    ),
                    forall|k: int| 0 <= k < i ==> bytes_read_back((#[trigger] all[k]).1),
                decreases items@.len() - i,
            {
                assert(value->Mapping_0@[i as int] == items@[i as int]);
                assert(value@->Mapping_0[i as int] == (items@[i as int].0@, items@[i as int].1@));
                assert(all.take(i + 1).drop_last() =~= all.take(i as int));
                assert(all.take(i + 1).last() == (items@[i as int].0@, items@[i as int].1@));
                let key = value_key_to_literal(&items[i].0);
                match expr_value_to_literal(&items[i].1) {
                    Err(e) => {
                        proof {
                            lemma_entries_lits_fault(all, i + 1);
                        }
                        return Err(e);
                    },
                    Ok(l) => {
                        let ghost before = lit_entry_trees(out@);
                        let ghost pair = (key@, l@);
                        out.push((key, l));
                        assert(lit_entry_trees(out@) =~= before.push(pair));
                    },
                }
                i += 1;
            }
            assert(all.take(i as int) =~= all);
            Ok(ValueLiteral::Mapping(out))
        },
        ExprValue::Record(items) => {
            let ghost all = field_trees(items@);
            let tag_field = get_field(items, "$tag");
            let value_field = get_field(items, "$value");
            if items.len() == 2 {
                if let (Some(tag_value), Some(inner)) = (tag_field, value_field) {
                    proof {
                        lemma_field_to_lit(all, "$value"@);
                        let k = choose|k: int|
                            0 <= k < items@.len() && *inner == (#[trigger] items@[k]).1;
                        assert(value->Record_0@[k].1 == *inner);
                        assert(value@->Record_0[k].1 == inner@);
                    }
                    let tag = match tag_value {
                        ExprValue::Text(t) => t.clone(),
                        other => {
                            return Err(join2("variant $tag must be text, got ", other.kind()));
                        },
                    };
                    let literal = match inner {
                        ExprValue::Unit => Ok(ValueLiteral::Variant(tag, None)),
                        ExprValue::Null => Ok(ValueLiteral::Variant(tag, None)),
                        other => match expr_value_to_literal(other) {
                            Ok(l) => Ok(ValueLiteral::Variant(tag, Some(Box::new(l)))),
                            Err(e) => Err(e),
                        },
                    };
                    proof {
                        if literal is Ok {
                            lemma_variant_bytes(all);
                        }
                    }
                    return literal;
                }
            }
            let mut out: Vec<(String, ValueLiteral)> = Vec::new();
            let mut i: usize = 0;
            assert(all.take(0) =~= Seq::empty());
            assert(field_trees(out@) =~= Seq::empty());
            while i < items.len()
                invariant
                    i <= items@.len(),
                    *value == ExprValue::Record(*items),
                    value@ == ValueTree::Record(all),
                    hash_keys_valid(value@),
                    !is_variant_record(all),
                    all == field_trees(items@),
                    fields_to_lits(all.take(i as int)) == Ok::<_, Seq<char>>(field_trees(out@)),
                    forall|k: int| 0 <= k < i ==> bytes_read_back((#[trigger] all[k]).1),
                decreases items@.len() - i,
            {
                assert(value->Record_0@[i as int] == items@[i as int]);
                assert(value@->Record_0[i as int] == (items@[i as int].0@, items@[i as int].1@));
                assert(all.take(i + 1).drop_last() =~= all.take(i as int));
                assert(all.take(i + 1).last() == (items@[i as int].0@, items@[i as int].1@));
                match expr_value_to_literal(&items[i].1) {
                    Err(e) => {
                        proof {
                            lemma_fields_lits_fault(all, i + 1);
                        }
                        return Err(e);
                    },
                    Ok(l) => {
                        insert_field(&mut out, items[i].0.clone(), l);
                    },
                }
                i += 1;
            }
            assert(all.take(i as int) =~= all);
            Ok(ValueLiteral::Record(out))
        },
    }
}

} // verus!
