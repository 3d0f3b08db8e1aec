//! What sets, maps and values hold, and what is read into them.
use vstd::prelude::*;

use crate::cbor::{cbor_parsed, text_entry, CborTree};
use crate::cbor_codec::{idempotency_key, loose_value, loose_values, receipt_value, truth_of,
    value_to_cbor, values_to_cbor};
use crate::hash::{hash_text, is_hash_text, lemma_hash_text_reads_back};
use crate::schema_value::{map_key, name_insert, primitive_value, set_key, text_index, typed_fields,
    typed_value, typed_values};
use crate::schema_value::laws::parts_settled;
use crate::types::{is_part, lemma_settle_step, lemma_type_settles, resolved, settled, type_settles,
    TypeExpr, TypeMapKey, TypePrimitive};
use crate::variant::{unit_tag, variant_bytes, variant_of, variant_text, without_text};

use super::{map_insert, set_insert, KeyTree, ValueTree};

verus! {

/// A set with a key added has that key and those that it had.
pub proof fn lemma_set_holds_its_keys(s: Seq<KeyTree>, k: KeyTree, x: KeyTree)
    ensures
        set_insert(s, k).contains(x) <==> s.contains(x) || x == k,
    decreases s.len(),
{
    let r = set_insert(s, k);
    if s.len() == 0 {
        assert(r[0] == k);
    } else if s[0] == k {
        assert(s[0] == k);
    } else if super::value_key_lt(k, s[0]) {
        lemma_one_more(s, k, x);
    } else {
        let rest = s.drop_first();
        lemma_set_holds_its_keys(rest, k, x);
        lemma_one_more(set_insert(rest, k), s[0], x);
        lemma_one_more(rest, s[0], x);
        assert(seq![s[0]] + rest =~= s);
    }
}

proof fn lemma_one_more<T>(s: Seq<T>, k: T, x: T)
    ensures
        (seq![k] + s).contains(x) <==> s.contains(x) || x == k,
{
    let r = seq![k] + s;
    assert(r[0] == k);
    if s.contains(x) {
        let i = choose|i: int| 0 <= i < s.len() && s[i] == x;
        assert(r[i + 1] == x);
    }
    if r.contains(x) {
        let i = choose|i: int| 0 <= i < r.len() && r[i] == x;
        if i > 0 {
            assert(s[i - 1] == x);
        }
    }
}

/// A map with a key bound has that binding, and its other bindings are those that it had.
pub proof fn lemma_map_holds_its_entries<V>(
    s: Seq<(KeyTree, V)>,
    k: KeyTree,
    v: V,
    x: (KeyTree, V),
)
    ensures
        map_insert(s, k, v).contains((k, v)),
        x.0 != k ==> (map_insert(s, k, v).contains(x) <==> s.contains(x)),
    decreases s.len(),
{
    if s.len() == 0 {
        assert(map_insert(s, k, v)[0] == (k, v));
    } else {
        let rest = s.drop_first();
        assert(seq![s[0]] + rest =~= s);
        lemma_one_more(rest, s[0], x);
        if s[0].0 == k {
            lemma_one_more(rest, (k, v), x);
            lemma_one_more(rest, (k, v), (k, v));
        } else if super::value_key_lt(k, s[0].0) {
            lemma_one_more(s, (k, v), x);
            lemma_one_more(s, (k, v), (k, v));
        } else {
            lemma_map_holds_its_entries(rest, k, v, x);
            lemma_one_more(map_insert(rest, k, v), s[0], x);
            lemma_one_more(map_insert(rest, k, v), s[0], (k, v));
        }
    }
}

/// A record with a field bound in name order has that field, and its others are those that it had.
pub proof fn lemma_record_holds_its_fields<V>(
    s: Seq<(Seq<char>, V)>,
    k: Seq<char>,
    v: V,
    x: (Seq<char>, V),
)
    ensures
        name_insert(s, k, v).contains((k, v)),
        x.0 != k ==> (name_insert(s, k, v).contains(x) <==> s.contains(x)),
    decreases s.len(),
{
    if s.len() == 0 {
        assert(name_insert(s, k, v)[0] == (k, v));
    } else {
        let rest = s.drop_first();
        assert(seq![s[0]] + rest =~= s);
        lemma_one_more(rest, s[0], x);
        if s[0].0 == k {
            lemma_one_more(rest, (k, v), x);
            lemma_one_more(rest, (k, v), (k, v));
        } else if crate::text::lex_lt(k, s[0].0) {
            lemma_one_more(s, (k, v), x);
            lemma_one_more(s, (k, v), (k, v));
        } else {
            lemma_record_holds_its_fields(rest, k, v, x);
            lemma_one_more(name_insert(rest, k, v), s[0], x);
            lemma_one_more(name_insert(rest, k, v), s[0], (k, v));
        }
    }
}

/// A guard has a truth value if and only if it comes to one, and it is that one.
pub proof fn lemma_guard_is_what_it_comes_to(v: ValueTree)
    ensures
        truth_of(v) is Ok <==> v is Bool,
        truth_of(v) matches Ok(b) ==> v == ValueTree::Bool(b),
{
}

/// A key is 32 bytes, given as they are or as the text of a digest; nothing else is a key.
pub proof fn lemma_key_is_32_bytes(v: ValueTree, bytes: Seq<u8>)
    ensures
        v matches ValueTree::Bytes(b) ==> (idempotency_key(v) is Ok <==> b.len() == 32) && (
        idempotency_key(v) matches Ok(k) ==> k == b),
        bytes.len() == 32 ==> idempotency_key(ValueTree::Text(hash_text(bytes))) == Ok::<
            Seq<u8>,
            Seq<char>,
        >(bytes),
        bytes.len() == 32 ==> idempotency_key(ValueTree::Hash(hash_text(bytes))) == Ok::<
            Seq<u8>,
            Seq<char>,
        >(bytes),
        v matches ValueTree::Text(t) ==> (idempotency_key(v) is Ok <==> is_hash_text(t)),
        v matches ValueTree::Hash(t) ==> (idempotency_key(v) is Ok <==> is_hash_text(t)),
        !(v is Bytes) && !(v is Text) && !(v is Hash) ==> idempotency_key(v) is Err,
{
    if bytes.len() == 32 {
        lemma_hash_text_reads_back(bytes);
    }
}

/// Values without parts are written as what they are: numbers, instants and durations as integers,
/// bytes as bytes, texts of all sorts as text, unit and null as null.
pub proof fn lemma_plain_values_are_written(v: ValueTree)
    ensures
        v is Unit || v is Null ==> value_to_cbor(v) == CborTree::Null,
        v matches ValueTree::Bool(b) ==> value_to_cbor(v) == CborTree::Bool(b),
        v matches ValueTree::Int(i) ==> value_to_cbor(v) == CborTree::Integer(i as i128),
        v matches ValueTree::Nat(n) ==> value_to_cbor(v) == CborTree::Integer(n as i128),
        v matches ValueTree::TimeNs(n) ==> value_to_cbor(v) == CborTree::Integer(n as i128),
        v matches ValueTree::DurationNs(i) ==> value_to_cbor(v) == CborTree::Integer(i as i128),
        v matches ValueTree::Bytes(b) ==> value_to_cbor(v) == CborTree::Bytes(b),
        v matches ValueTree::Text(t) ==> value_to_cbor(v) == CborTree::Text(t),
        v matches ValueTree::Hash(t) ==> value_to_cbor(v) == CborTree::Text(t),
        v matches ValueTree::Uuid(t) ==> value_to_cbor(v) == CborTree::Text(t),
        v matches ValueTree::Dec128(t) ==> value_to_cbor(v) == CborTree::Text(t),
{
}

/// A list is written as the array of its items, in their order.
pub proof fn lemma_list_is_written_in_order(items: Seq<ValueTree>)
    ensures
        value_to_cbor(ValueTree::List(items)) matches CborTree::Array(out) && out.len()
            == items.len() && forall|i: int|
            0 <= i < items.len() ==> #[trigger] out[i] == value_to_cbor(items[i]),
    decreases items.len(),
{
    if items.len() > 0 {
        let front = items.drop_last();
        lemma_list_is_written_in_order(front);
        let out = values_to_cbor(items);
        assert forall|i: int| 0 <= i < items.len() implies #[trigger] out[i] == value_to_cbor(
            items[i],
        ) by {
            if i < front.len() {
                assert(out[i] == values_to_cbor(front)[i]);
                assert(front[i] == items[i]);
            }
        }
    }
}

/// Read without a schema, an integer is a natural number or a negative one, as far as 64 bits go;
/// a text is a hash if it is the text of a digest; and an array is the list of what its items are.
pub proof fn lemma_loose_reading(c: CborTree)
    ensures
        c is Null ==> loose_value(c) == Some(ValueTree::Null),
        c matches CborTree::Bool(b) ==> loose_value(c) == Some(ValueTree::Bool(b)),
        c matches CborTree::Bytes(b) ==> loose_value(c) == Some(ValueTree::Bytes(b)),
        c matches CborTree::Text(t) ==> (is_hash_text(t) ==> loose_value(c) == Some(
            ValueTree::Hash(t),
        )) && (!is_hash_text(t) ==> loose_value(c) == Some(ValueTree::Text(t))),
        c matches CborTree::Integer(i) ==> {
            &&& loose_value(c) is Some <==> i64::MIN <= i <= u64::MAX
            &&& 0 <= i <= u64::MAX ==> loose_value(c) == Some(ValueTree::Nat(i as u64))
            &&& i64::MIN <= i < 0 ==> loose_value(c) == Some(ValueTree::Int(i as i64))
        },
        c matches CborTree::Array(items) ==> {
            &&& loose_value(c) is Some <==> forall|i: int|
                0 <= i < items.len() ==> loose_value(#[trigger] items[i]) is Some
            &&& loose_value(c) matches Some(v) ==> {
                &&& v matches ValueTree::List(out)
                &&& out.len() == items.len()
                &&& forall|i: int|
                    0 <= i < items.len() ==> loose_value(items[i]) == Some(#[trigger] out[i])
            }
        },
{
    if let CborTree::Array(items) = c {
        lemma_loose_items(items);
    }
}

proof fn lemma_loose_items(items: Seq<CborTree>)
    ensures
        loose_values(items) is Some <==> forall|i: int|
            0 <= i < items.len() ==> loose_value(#[trigger] items[i]) is Some,
        loose_values(items) matches Some(out) ==> out.len() == items.len() && forall|i: int|
            0 <= i < items.len() ==> loose_value(items[i]) == Some(#[trigger] out[i]),
    decreases items.len(),
{
    if items.len() > 0 {
        let front = items.drop_last();
        lemma_loose_items(front);
        if forall|i: int| 0 <= i < items.len() ==> loose_value(#[trigger] items[i]) is Some {
            assert forall|i: int| 0 <= i < front.len() implies loose_value(
                #[trigger] front[i],
            ) is Some by {
                assert(front[i] == items[i]);
            }
            assert(items.last() == items[items.len() - 1]);
        }
        if let Some(out) = loose_values(items) {
            let done = loose_values(front)->0;
            assert forall|i: int| 0 <= i < items.len() implies loose_value(items[i]) == Some(
                #[trigger] out[i],
            ) by {
                if i < front.len() {
                    assert(out[i] == done[i]);
                    assert(front[i] == items[i]);
                }
            }
            assert forall|i: int| 0 <= i < items.len() implies loose_value(
                #[trigger] items[i],
            ) is Some by {
                assert(loose_value(items[i]) == Some(out[i]));
            }
        }
    }
}

/// The payload of a receipt is what it says as a value; else what its CBOR says; else its bytes.
pub proof fn lemma_payload_is_always_a_value(typed: Option<ValueTree>, payload: Seq<u8>)
    ensures
        typed matches Some(v) ==> receipt_value(typed, payload) == v,
        typed is None ==> (cbor_parsed(payload) matches Ok(c) ==> (loose_value(c) matches Some(v)
            ==> receipt_value(typed, payload) == v) && (loose_value(c) is None ==> receipt_value(
            typed,
            payload,
        ) == ValueTree::Bytes(payload))),
        typed is None && cbor_parsed(payload) is Err ==> receipt_value(typed, payload)
            == ValueTree::Bytes(payload),
{
}

/// A value of a primitive type is read from CBOR of the kind that it is written in, within its
/// range, and nothing else.
pub proof fn lemma_primitive_is_read(c: CborTree, p: TypePrimitive)
    ensures
        p is Bool ==> (primitive_value(c, p) is Ok <==> c is Bool),
        p is Int ==> (primitive_value(c, p) is Ok <==> (c matches CborTree::Integer(i) && i64::MIN
            <= i <= i64::MAX)),
        p is Nat ==> (primitive_value(c, p) is Ok <==> (c matches CborTree::Integer(i) && 0 <= i
            <= u64::MAX)),
        p is Time ==> (primitive_value(c, p) is Ok <==> (c matches CborTree::Integer(i) && 0 <= i)),
        p is Duration ==> (primitive_value(c, p) is Ok <==> c is Integer),
        p is Bytes ==> (primitive_value(c, p) is Ok <==> c is Bytes),
        p is Text || p is Uuid || p is Dec128 ==> (primitive_value(c, p) is Ok <==> c is Text),
        p is Hash ==> (primitive_value(c, p) is Ok <==> (c matches CborTree::Text(t)
            && is_hash_text(t))),
        p is Unit ==> primitive_value(c, p) == Ok::<ValueTree, Seq<char>>(ValueTree::Unit),
        primitive_value(c, p) matches Ok(v) ==> {
            &&& v is Bool <==> p is Bool
            &&& v is Int <==> p is Int
            &&& v is Nat <==> p is Nat
            &&& v is TimeNs <==> p is Time
            &&& v is DurationNs <==> p is Duration
            &&& v is Bytes <==> p is Bytes
            &&& v is Text <==> p is Text
            &&& v is Uuid <==> p is Uuid
            &&& v is Dec128 <==> p is Dec128
            &&& v is Hash <==> p is Hash
            &&& !(p is Unit) && !(c is Integer && (p is Time || p is Duration)) ==> value_to_cbor(v)
                == c
            &&& (c matches CborTree::Integer(i) && i <= u64::MAX) && p is Time ==> value_to_cbor(v)
                == c
            &&& (c matches CborTree::Integer(i) && i64::MIN <= i <= i64::MAX) && p is Duration
                ==> value_to_cbor(v) == c
        },
{
}

/// The keys of sets and maps are read alike: a number within its range, or a text.
pub proof fn lemma_keys_are_read(c: CborTree, kind: TypeMapKey)
    ensures
        ({
            let p = match kind {
                TypeMapKey::Int => TypePrimitive::Int,
                TypeMapKey::Nat => TypePrimitive::Nat,
                TypeMapKey::Text => TypePrimitive::Text,
                TypeMapKey::Uuid => TypePrimitive::Uuid,
                TypeMapKey::Hash => TypePrimitive::Hash,
            };
            let s = set_key(c, TypeExpr::Primitive(p));
            &&& map_key(c, kind) is Ok <==> s is Ok
            &&& map_key(c, kind) matches Ok(k) ==> s == Ok::<KeyTree, Seq<char>>(k)
                && crate::cbor_codec::key_to_cbor(k) == c
            &&& kind is Int ==> (s is Ok <==> (c matches CborTree::Integer(i) && i64::MIN <= i
                <= i64::MAX))
            &&& kind is Nat ==> (s is Ok <==> (c matches CborTree::Integer(i) && 0 <= i
                <= u64::MAX))
            &&& kind is Text || kind is Uuid || kind is Hash ==> (s is Ok <==> c is Text)
            &&& map_key(c, kind) matches Ok(k) ==> {
                &&& k is Int <==> kind is Int
                &&& k is Nat <==> kind is Nat
                &&& k is Text <==> kind is Text
                &&& k is Uuid <==> kind is Uuid
                &&& k is Hash <==> kind is Hash
            }
        }),
{
}

proof fn lemma_typed_items(items: Seq<CborTree>, ty: TypeExpr, m: Map<Seq<char>, TypeExpr>)
    requires
        settled(m, ty),
    ensures
        typed_values(items, ty, m) is Ok <==> forall|i: int|
            0 <= i < items.len() ==> typed_value(#[trigger] items[i], ty, m) is Ok,
        typed_values(items, ty, m) matches Ok(out) ==> out.len() == items.len() && forall|i: int|
            0 <= i < items.len() ==> typed_value(items[i], ty, m) == Ok::<ValueTree, Seq<char>>(
                #[trigger] out[i],
            ),
    decreases items.len(),
{
    if items.len() > 0 {
        let front = items.drop_last();
        lemma_typed_items(front, ty, m);
        if forall|i: int| 0 <= i < items.len() ==> typed_value(#[trigger] items[i], ty, m) is Ok {
            assert forall|i: int| 0 <= i < front.len() implies typed_value(
                #[trigger] front[i],
                ty,
                m,
            ) is Ok by {
                assert(front[i] == items[i]);
            }
            assert(items.last() == items[items.len() - 1]);
        }
        if let Ok(out) = typed_values(items, ty, m) {
            let done = typed_values(front, ty, m)->Ok_0;
            assert forall|i: int| 0 <= i < items.len() implies typed_value(items[i], ty, m) == Ok::<
                ValueTree,
                Seq<char>,
            >(#[trigger] out[i]) by {
                if i < front.len() {
                    assert(out[i] == done[i]);
                    assert(front[i] == items[i]);
                }
            }
            assert forall|i: int| 0 <= i < items.len() implies typed_value(
                #[trigger] items[i],
                ty,
                m,
            ) is Ok by {
                assert(typed_value(items[i], ty, m) == Ok::<ValueTree, Seq<char>>(out[i]));
            }
        }
    }
}

/// A list is read item by item, in order. An option is null or what its inner type makes of it. A
/// reference is read as its target.
pub proof fn lemma_typed_reading(c: CborTree, ty: TypeExpr, m: Map<Seq<char>, TypeExpr>)
    requires
        type_settles(m, ty),
    ensures
        ty matches TypeExpr::List(elem) ==> {
            &&& !(c is Array) ==> typed_value(c, ty, m) is Err
            &&& c matches CborTree::Array(items) ==> (resolved(m, *elem) matches Some(t) ==> {
                &&& typed_value(c, ty, m) is Ok <==> forall|i: int|
                    0 <= i < items.len() ==> typed_value(#[trigger] items[i], t, m) is Ok
                &&& typed_value(c, ty, m) matches Ok(v) ==> {
                    &&& v matches ValueTree::List(out)
                    &&& out.len() == items.len()
                    &&& forall|i: int|
                        0 <= i < items.len() ==> typed_value(items[i], t, m) == Ok::<
                            ValueTree,
                            Seq<char>,
                        >(#[trigger] out[i])
                }
            })
        },
        ty matches TypeExpr::OptionOf(inner) ==> {
            &&& c is Null ==> typed_value(c, ty, m) == Ok::<ValueTree, Seq<char>>(ValueTree::Null)
            &&& !(c is Null) ==> (resolved(m, *inner) matches Some(t) ==> typed_value(c, ty, m)
                == typed_value(c, t, m))
        },
        ty matches TypeExpr::Ref(name) ==> {
            &&& m.contains_key(name@) ==> typed_value(c, ty, m) == typed_value(c, m[name@], m)
            &&& !m.contains_key(name@) ==> typed_value(c, ty, m) is Err
        },
        ty matches TypeExpr::Record(_) ==> !(c is Mapping) ==> typed_value(c, ty, m) is Err,
        ty matches TypeExpr::SetOf(_) ==> !(c is Array) ==> typed_value(c, ty, m) is Err,
        ty matches TypeExpr::Mapping(_, _) ==> !(c is Mapping) ==> typed_value(c, ty, m) is Err,
{
    lemma_type_settles(m, ty);
    lemma_settle_step(m, ty);
    if let TypeExpr::List(elem) = ty {
        if let CborTree::Array(items) = c {
            if let Some(t) = resolved(m, *elem) {
                assert(is_part(m, ty, t));
                lemma_type_settles(m, t);
                lemma_typed_items(items, t, m);
            }
        }
    }
}

/// Whether an entry of a map has a text as its key.
pub open spec fn has_text(entries: Seq<(CborTree, CborTree)>, name: Seq<char>) -> bool {
    exists|i: int| 0 <= i < entries.len() && (#[trigger] entries[i]).0 == CborTree::Text(name)
}

/// Every field of a record type that is read is there: with what its type makes of the entry under
/// its name, or null where there is no such entry and the type is an option. A field that is
/// neither there nor an option is a fault.
pub proof fn lemma_every_field_is_read(
    entries: Seq<(CborTree, CborTree)>,
    fields: Seq<(String, TypeExpr)>,
    m: Map<Seq<char>, TypeExpr>,
    i: int,
)
    requires
        0 <= i < fields.len(),
        forall|j: int, k: int|
            0 <= j < k < fields.len() ==> (#[trigger] fields[j]).0@ != (#[trigger] fields[k]).0@,
        parts_settled(fields, m),
        typed_fields(entries, fields, m) is Ok,
    ensures
        ({
            let out = typed_fields(entries, fields, m)->Ok_0;
            let name = fields[i].0@;
            let at = text_index(entries, name);
            &&& resolved(m, fields[i].1) matches Some(t)
            &&& has_text(entries, name) ==> 0 <= at < entries.len() && entries[at].0
                == CborTree::Text(name) && (typed_value(entries[at].1, t, m) matches Ok(v)
                && out.contains((name, v)))
            &&& !has_text(entries, name) ==> t is OptionOf && out.contains((name, ValueTree::Null))
        }),
    decreases fields.len(),
{
    assert(fields.last() == fields[fields.len() - 1]);
    let front = fields.drop_last();
    let done = typed_fields(entries, front, m)->Ok_0;
    let name = fields.last().0@;
    lemma_text_found(entries, name);
    lemma_text_found(entries, fields[i].0@);
    let at = text_index(entries, name);
    let v = if 0 <= at < entries.len() {
        typed_value(entries[at].1, resolved(m, fields.last().1)->0, m)->Ok_0
    } else {
        ValueTree::Null
    };
    lemma_record_holds_its_fields(done, name, v, (name, v));
    if i < fields.len() - 1 {
        assert forall|j: int, k: int| 0 <= j < k < front.len() implies (#[trigger] front[j]).0@ != (
        #[trigger] front[k]).0@ by {
            assert(front[j] == fields[j] && front[k] == fields[k]);
        }
        assert(front[i] == fields[i]);
        assert forall|j: int| 0 <= j < front.len() implies (resolved(
            m,
            (#[trigger] front[j]).1,
        ) matches Some(t) ==> settled(m, t)) by {
            assert(front[j] == fields[j]);
        }
        lemma_every_field_is_read(entries, front, m, i);
        let mine = text_index(entries, fields[i].0@);
        let w = if 0 <= mine < entries.len() {
            typed_value(entries[mine].1, resolved(m, fields[i].1)->0, m)->Ok_0
        } else {
            ValueTree::Null
        };
        assert(fields[i].0@ != fields[fields.len() - 1].0@);
        lemma_record_holds_its_fields(done, name, v, (fields[i].0@, w));
    }
}

proof fn lemma_text_found(entries: Seq<(CborTree, CborTree)>, name: Seq<char>)
    ensures
        0 <= text_index(entries, name) <= entries.len(),
        has_text(entries, name) <==> text_index(entries, name) < entries.len(),
        text_index(entries, name) < entries.len() ==> entries[text_index(entries, name)].0
            == CborTree::Text(name),
    decreases entries.len(),
{
    if entries.len() > 0 {
        let rest = entries.drop_first();
        lemma_text_found(rest, name);
        if entries[0].0 == CborTree::Text(name) {
            assert(has_text(entries, name));
        } else {
            if has_text(entries, name) {
                let i = choose|i: int|
                    0 <= i < entries.len() && (#[trigger] entries[i]).0 == CborTree::Text(name);
                assert(rest[i - 1] == entries[i]);
            }
            if has_text(rest, name) {
                let i = choose|i: int|
                    0 <= i < rest.len() && (#[trigger] rest[i]).0 == CborTree::Text(name);
                assert(entries[i + 1] == rest[i]);
            }
        }
    }
}

/// A variant is read from its tag alone, from its tag and its value in either order, and from a map
/// of its tag to its value.
pub proof fn lemma_variant_is_read(tag: Seq<char>, v: CborTree)
    ensures
        ({
            let t = (CborTree::Text("$tag"@), CborTree::Text(tag));
            let x = (CborTree::Text("$value"@), v);
            &&& variant_of(CborTree::Mapping(seq![t])) == Ok::<
                (Seq<char>, Option<CborTree>),
                Seq<char>,
            >((tag, None))
            &&& variant_of(CborTree::Mapping(seq![t, x])) == Ok::<
                (Seq<char>, Option<CborTree>),
                Seq<char>,
            >((tag, Some(v)))
            &&& variant_of(CborTree::Mapping(seq![x, t])) == Ok::<
                (Seq<char>, Option<CborTree>),
                Seq<char>,
            >((tag, Some(v)))
            &&& tag != "$tag"@ ==> variant_of(CborTree::Mapping(seq![(CborTree::Text(tag), v)]))
                == Ok::<(Seq<char>, Option<CborTree>), Seq<char>>((tag, Some(v)))
            &&& variant_of(CborTree::Mapping(Seq::empty())) is Err
            &&& !(v is Mapping) ==> variant_of(v) is Err
        }),
{
    reveal_strlit("$tag");
    reveal_strlit("$value");
    assert("$tag"@.len() == 4 && "$value"@.len() == 6);
    let t = (CborTree::Text("$tag"@), CborTree::Text(tag));
    let x = (CborTree::Text("$value"@), v);
    let none = Seq::<(CborTree, CborTree)>::empty();
    reveal_with_fuel(without_text, 3);
    reveal_with_fuel(text_entry, 3);
    assert(seq![t].drop_first() =~= none);
    assert(seq![x].drop_first() =~= none);
    assert(seq![t, x].drop_first() =~= seq![x]);
    assert(seq![x, t].drop_first() =~= seq![t]);
    assert(seq![x] + none =~= seq![x]);
    let y = (CborTree::Text(tag), v);
    assert(seq![y].drop_first() =~= none);
    assert(seq![y] + none =~= seq![y]);
    assert(without_text(seq![x, t], "$tag"@) =~= seq![x]);
    assert(without_text(seq![y], "$tag"@) =~= if tag == "$tag"@ {
        none
    } else {
        seq![y]
    });
}

/// What a variant carries is had only as what it is: bytes as bytes, text as text, and the tag
/// alone where it carries nothing or null.
pub proof fn lemma_variant_carries(tag: Seq<char>, inner: Option<CborTree>, t: CborTree)
    ensures
        variant_bytes(tag, inner) matches Ok(b) ==> inner == Some(CborTree::Bytes(b)),
        variant_bytes(tag, inner) is Ok <==> inner is Some && inner->0 is Bytes,
        variant_text(tag, inner) matches Ok(x) ==> inner == Some(CborTree::Text(x)),
        variant_text(tag, inner) is Ok <==> inner is Some && inner->0 is Text,
        unit_tag(t) matches Ok(x) ==> {
            ||| variant_of(t) == Ok::<(Seq<char>, Option<CborTree>), Seq<char>>((x, None))
            ||| variant_of(t) == Ok::<(Seq<char>, Option<CborTree>), Seq<char>>(
                (x, Some(CborTree::Null)),
            )
        },
        unit_tag(t) is Ok <==> (variant_of(t) matches Ok((_, i)) && (i is None || i
            == Some(CborTree::Null))),
{
}

} // verus!
