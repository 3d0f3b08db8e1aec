//! A value of a type is what its CBOR reads back as.
use vstd::prelude::*;

use crate::cbor::{is_plain_key, key_lt, CborTree};
use crate::cbor_codec::{cbor_insert, entries_to_cbor, field_to_cbor, fields_to_cbor, key_to_cbor,
    lemma_key_total, lemma_key_transitive, value_to_cbor, values_to_cbor, variant_tag};
use crate::codec::laws::{keys_in_order, lemma_set_insert_last};
use crate::hash::is_hash_text;
use crate::names::{lemma_name_index, name_index};
use crate::schema_value::{map_key, name_insert, set_key, text_index, typed_entries, typed_fields,
    typed_set, typed_value, typed_values};
use crate::sorted::{lemma_sorted_insert, lemma_sorted_unique, sorted_by, sorted_insert};
use crate::text::{lemma_lex_irreflexive, lemma_lex_total, lemma_lex_transitive, lex_lt};
use crate::types::{among_parts, is_part, lemma_settle_step, lemma_type_settles, resolved, settled,
    settle_steps, type_settles, TypeExpr, TypeMapKey, TypePrimitive};
use crate::value::{map_insert, record_get, value_key_lt, KeyTree, ValueTree};

verus! {

/// Whether a value is of a primitive type.
pub open spec fn primitive_fits(v: ValueTree, p: TypePrimitive) -> bool {
    match p {
        TypePrimitive::Bool => v is Bool,
        TypePrimitive::Int => v is Int,
        TypePrimitive::Nat => v is Nat,
        TypePrimitive::Dec128 => v is Dec128,
        TypePrimitive::Bytes => v is Bytes,
        TypePrimitive::Text => v is Text,
        TypePrimitive::Time => v is TimeNs,
        TypePrimitive::Duration => v is DurationNs,
        TypePrimitive::Hash => v matches ValueTree::Hash(t) && is_hash_text(t),
        TypePrimitive::Uuid => v is Uuid,
        TypePrimitive::Unit => v is Unit,
    }
}

/// Whether entries stand in key order.
pub open spec fn in_key_order<V>(items: Seq<(KeyTree, V)>) -> bool {
    sorted_by(items, |a: KeyTree, b: KeyTree| value_key_lt(a, b))
}

/// Whether fields stand in name order.
pub open spec fn in_field_order<V>(items: Seq<(Seq<char>, V)>) -> bool {
    sorted_by(items, |a: Seq<char>, b: Seq<char>| lex_lt(a, b))
}

/// The type of the field or arm of a name.
pub open spec fn part_type(
    parts: Seq<(String, TypeExpr)>,
    name: Seq<char>,
    m: Map<Seq<char>, TypeExpr>,
) -> Option<TypeExpr> {
    let k = name_index(parts, name);
    if 0 <= k < parts.len() {
        resolved(m, parts[k].1)
    } else {
        None
    }
}

/// Whether the names of the parts of a type are different.
pub open spec fn parts_once(parts: Seq<(String, TypeExpr)>) -> bool {
    forall|i: int, j: int|
        0 <= i < j < parts.len() ==> (#[trigger] parts[i]).0@ != (#[trigger] parts[j]).0@
}

/// Whether a record has a field of a name.
pub open spec fn has_field(items: Seq<(Seq<char>, ValueTree)>, name: Seq<char>) -> bool {
    exists|j: int| 0 <= j < items.len() && (#[trigger] items[j]).0 == name
}

/// Whether a value is of a type, in the form in which values of the type are read: sets and maps
/// in key order, records in name order with every field there, and a variant as its tag and its
/// value. An option holds null or a value that is not written as null; the tag of a variant is not
/// the word that marks tags.
pub open spec fn has_type(v: ValueTree, ty: TypeExpr, m: Map<Seq<char>, TypeExpr>) -> bool
    decreases v, settle_steps(m, ty),
    when settled(m, ty)
{
    proof {
        lemma_settle_step(m, ty);
    }
    match ty {
        TypeExpr::Primitive(p) => primitive_fits(v, p),
        TypeExpr::Record(fields) => match v {
            ValueTree::Record(items) => {
                &&& variant_tag(items) is None
                &&& in_field_order(items)
                &&& parts_once(fields@)
                &&& forall|i: int|
                    0 <= i < fields@.len() ==> has_field(items, (#[trigger] fields@[i]).0@)
                &&& forall|j: int|
                    0 <= j < items.len() ==> part_type(fields@, (#[trigger] items[j]).0, m) is Some
                        && has_type(
                        items[j].1,
                        part_type(fields@, items[j].0, m)->Some_0,
                        m,
                    )
            },
            _ => false,
        },
        TypeExpr::Variant(arms) => match v {
            ValueTree::Record(items) => {
                &&& 1 <= items.len() <= 2
                &&& items[0].0 == "$tag"@
                &&& items[0].1 is Text
                &&& part_type(arms@, items[0].1->Text_0, m) is Some
                &&& items.len() == 2 ==> items[1].0 == "$value"@ && items[0].1->Text_0 != "$tag"@
                    && has_type(
                    items[1].1,
                    part_type(arms@, items[0].1->Text_0, m)->Some_0,
                    m,
                )
            },
            _ => false,
        },
        TypeExpr::List(elem) => match v {
            ValueTree::List(items) => resolved(m, *elem) is Some && forall|i: int|
                0 <= i < items.len() ==> has_type(
                    #[trigger] items[i],
                    resolved(m, *elem)->Some_0,
                    m,
                ),
            _ => false,
        },
        TypeExpr::SetOf(elem) => match v {
            ValueTree::SetOf(keys) => resolved(m, *elem) is Some && keys_in_order(keys) && forall|
                i: int,
            |
                0 <= i < keys.len() ==> set_key(
                    key_to_cbor(#[trigger] keys[i]),
                    resolved(m, *elem)->Some_0,
                ) == Ok::<KeyTree, Seq<char>>(keys[i]),
            _ => false,
        },
        TypeExpr::Mapping(kind, elem) => match v {
            ValueTree::Mapping(items) => resolved(m, *elem) is Some && in_key_order(items)
                && forall|i: int|
                0 <= i < items.len() ==> map_key(key_to_cbor((#[trigger] items[i]).0), kind) == Ok::<
                    KeyTree,
                    Seq<char>,
                >(items[i].0) && has_type(items[i].1, resolved(m, *elem)->Some_0, m),
            _ => false,
        },
        TypeExpr::OptionOf(inner) => v is Null || (value_to_cbor(v) !is Null && resolved(
            m,
            *inner,
        ) is Some && has_type(v, resolved(m, *inner)->Some_0, m)),
        TypeExpr::Ref(name) => m.contains_key(name@) && has_type(v, m[name@], m),
    }
}

proof fn lemma_map_insert_is<V>(s: Seq<(KeyTree, V)>, k: KeyTree, v: V)
    ensures
        map_insert(s, k, v) == sorted_insert(
            s,
            k,
            v,
            |a: KeyTree, b: KeyTree| value_key_lt(a, b),
        ),
    decreases s.len(),
{
    if s.len() > 0 {
        lemma_map_insert_is(s.drop_first(), k, v);
    }
}

proof fn lemma_name_insert_is<V>(s: Seq<(Seq<char>, V)>, k: Seq<char>, v: V)
    ensures
        name_insert(s, k, v) == sorted_insert(
            s,
            k,
            v,
            |a: Seq<char>, b: Seq<char>| lex_lt(a, b),
        ),
    decreases s.len(),
{
    if s.len() > 0 {
        lemma_name_insert_is(s.drop_first(), k, v);
    }
}

proof fn lemma_cbor_insert_is(s: Seq<(CborTree, CborTree)>, k: CborTree, v: CborTree)
    ensures
        cbor_insert(s, k, v) == sorted_insert(s, k, v, |a: CborTree, b: CborTree| key_lt(a, b)),
    decreases s.len(),
{
    if s.len() > 0 {
        lemma_cbor_insert_is(s.drop_first(), k, v);
    }
}

proof fn lemma_value_keys(a: KeyTree, b: KeyTree, c: KeyTree)
    ensures
        a == b || value_key_lt(a, b) || value_key_lt(b, a),
        value_key_lt(a, b) ==> !value_key_lt(b, a),
        value_key_lt(a, b) && value_key_lt(b, c) ==> value_key_lt(a, c),
{
    match (a, b) {
        (KeyTree::Text(x), KeyTree::Text(y)) => {
            lemma_lex_order(x, y);
        },
        (KeyTree::Hash(x), KeyTree::Hash(y)) => {
            lemma_lex_order(x, y);
        },
        (KeyTree::Uuid(x), KeyTree::Uuid(y)) => {
            lemma_lex_order(x, y);
        },
        _ => {},
    }
    if value_key_lt(a, b) && value_key_lt(b, c) {
        match (a, b, c) {
            (KeyTree::Text(x), KeyTree::Text(y), KeyTree::Text(z)) => {
                lemma_lex_transitive(x, y, z);
            },
            (KeyTree::Hash(x), KeyTree::Hash(y), KeyTree::Hash(z)) => {
                lemma_lex_transitive(x, y, z);
            },
            (KeyTree::Uuid(x), KeyTree::Uuid(y), KeyTree::Uuid(z)) => {
                lemma_lex_transitive(x, y, z);
            },
            _ => {},
        }
    }
}

proof fn lemma_lex_order(x: Seq<char>, y: Seq<char>)
    ensures
        x == y || lex_lt(x, y) || lex_lt(y, x),
        lex_lt(x, y) ==> !lex_lt(y, x),
{
    lemma_lex_total(x, y);
    if lex_lt(x, y) && lex_lt(y, x) {
        lemma_lex_transitive(x, y, x);
        lemma_lex_irreflexive(x);
    }
}

/// A new key takes its place in a map in key order.
proof fn lemma_map_insert<V>(s: Seq<(KeyTree, V)>, k: KeyTree, v: V)
    requires
        in_key_order(s),
        forall|i: int| 0 <= i < s.len() ==> (#[trigger] s[i]).0 != k,
    ensures
        in_key_order(map_insert(s, k, v)),
        forall|x: (KeyTree, V)| #[trigger]
            map_insert(s, k, v).contains(x) <==> s.contains(x) || x == (k, v),
{
    let lt = |a: KeyTree, b: KeyTree| value_key_lt(a, b);
    assert forall|i: int| 0 <= i < s.len() implies (#[trigger] s[i]).0 != k && (lt(k, s[i].0)
        || lt(s[i].0, k)) by {
        lemma_value_keys(k, s[i].0, k);
    }
    assert forall|i: int, j: int|
        0 <= i < j < s.len() && lt(k, (#[trigger] s[i]).0) implies lt(
        k,
        (#[trigger] s[j]).0,
    ) by {
        assert(lt(s[i].0, s[j].0));
        lemma_value_keys(k, s[i].0, s[j].0);
    }
    lemma_sorted_insert(s, k, v, lt);
    lemma_map_insert_is(s, k, v);
}

/// A new name takes its place among fields in name order.
proof fn lemma_name_insert<V>(s: Seq<(Seq<char>, V)>, k: Seq<char>, v: V)
    requires
        in_field_order(s),
        forall|i: int| 0 <= i < s.len() ==> (#[trigger] s[i]).0 != k,
    ensures
        in_field_order(name_insert(s, k, v)),
        forall|x: (Seq<char>, V)| #[trigger]
            name_insert(s, k, v).contains(x) <==> s.contains(x) || x == (k, v),
{
    let lt = |a: Seq<char>, b: Seq<char>| lex_lt(a, b);
    assert forall|i: int| 0 <= i < s.len() implies (#[trigger] s[i]).0 != k && (lt(k, s[i].0)
        || lt(s[i].0, k)) by {
        lemma_lex_order(k, s[i].0);
    }
    assert forall|i: int, j: int|
        0 <= i < j < s.len() && lt(k, (#[trigger] s[i]).0) implies lt(
        k,
        (#[trigger] s[j]).0,
    ) by {
        assert(lt(s[i].0, s[j].0));
        lemma_lex_transitive(k, s[i].0, s[j].0);
    }
    lemma_sorted_insert(s, k, v, lt);
    lemma_name_insert_is(s, k, v);
}

/// Whether entries of CBOR stand in canonical order.
pub open spec fn in_cbor_order(s: Seq<(CborTree, CborTree)>) -> bool {
    &&& sorted_by(s, |a: CborTree, b: CborTree| key_lt(a, b))
    &&& forall|i: int| 0 <= i < s.len() ==> is_plain_key((#[trigger] s[i]).0)
}

/// A new key takes its place in a map in canonical order.
proof fn lemma_cbor_insert(s: Seq<(CborTree, CborTree)>, k: CborTree, v: CborTree)
    requires
        in_cbor_order(s),
        is_plain_key(k),
        forall|i: int| 0 <= i < s.len() ==> (#[trigger] s[i]).0 != k,
    ensures
        in_cbor_order(cbor_insert(s, k, v)),
        forall|x: (CborTree, CborTree)| #[trigger]
            cbor_insert(s, k, v).contains(x) <==> s.contains(x) || x == (k, v),
{
    let lt = |a: CborTree, b: CborTree| key_lt(a, b);
    assert forall|i: int| 0 <= i < s.len() implies (#[trigger] s[i]).0 != k && (lt(k, s[i].0)
        || lt(s[i].0, k)) by {
        lemma_key_total(k, s[i].0);
    }
    assert forall|i: int, j: int|
        0 <= i < j < s.len() && lt(k, (#[trigger] s[i]).0) implies lt(
        k,
        (#[trigger] s[j]).0,
    ) by {
        assert(lt(s[i].0, s[j].0));
        lemma_key_transitive(k, s[i].0, s[j].0);
    }
    lemma_sorted_insert(s, k, v, lt);
    lemma_cbor_insert_is(s, k, v);
    let t = cbor_insert(s, k, v);
    assert forall|i: int| 0 <= i < t.len() implies is_plain_key((#[trigger] t[i]).0) by {
        assert(t.contains(t[i]));
        if t[i] != (k, v) {
            let j = s.index_of(t[i]);
            assert(s[j] == t[i]);
        }
    }
}

proof fn lemma_plain(k: KeyTree)
    ensures
        is_plain_key(key_to_cbor(k)),
{
}

/// The entry of CBOR for an entry of a map.
pub open spec fn entry_cbor(x: (KeyTree, ValueTree)) -> (CborTree, CborTree) {
    (key_to_cbor(x.0), value_to_cbor(x.1))
}

/// The entry of CBOR for a field of a record.
pub open spec fn field_cbor(x: (Seq<char>, ValueTree)) -> (CborTree, CborTree) {
    (CborTree::Text(x.0), value_to_cbor(x.1))
}

/// Whether a list of entries of CBOR holds those of the entries of a map, and no others.
pub open spec fn holds_entries(
    c: Seq<(CborTree, CborTree)>,
    items: Seq<(KeyTree, ValueTree)>,
) -> bool {
    &&& forall|j: int| 0 <= j < items.len() ==> c.contains(entry_cbor(#[trigger] items[j]))
    &&& forall|i: int| 0 <= i < c.len() ==> is_entry_of(#[trigger] c[i], items)
}

pub open spec fn is_entry_of(e: (CborTree, CborTree), items: Seq<(KeyTree, ValueTree)>) -> bool {
    exists|j: int| 0 <= j < items.len() && e == entry_cbor(#[trigger] items[j])
}

pub open spec fn keys_fit(items: Seq<(KeyTree, ValueTree)>, kind: TypeMapKey) -> bool {
    forall|i: int|
        0 <= i < items.len() ==> map_key(key_to_cbor((#[trigger] items[i]).0), kind) == Ok::<
            KeyTree,
            Seq<char>,
        >(items[i].0)
}

proof fn lemma_entries_cbor(items: Seq<(KeyTree, ValueTree)>, kind: TypeMapKey)
    requires
        in_key_order(items),
        keys_fit(items, kind),
    ensures
        in_cbor_order(entries_to_cbor(items)),
        holds_entries(entries_to_cbor(items), items),
    decreases items.len(),
{
    if items.len() > 0 {
        let lt = |a: KeyTree, b: KeyTree| value_key_lt(a, b);
        let front = items.drop_last();
        let n = items.len() - 1;
        assert forall|i: int, j: int| 0 <= i < j < front.len() implies lt(
            (#[trigger] front[i]).0,
            (#[trigger] front[j]).0,
        ) by {
            assert(front[i] == items[i] && front[j] == items[j]);
        }
        assert forall|i: int| 0 <= i < front.len() implies map_key(
            key_to_cbor((#[trigger] front[i]).0),
            kind,
        ) == Ok::<KeyTree, Seq<char>>(front[i].0) by {
            assert(front[i] == items[i]);
        }
        lemma_entries_cbor(front, kind);
        let c = entries_to_cbor(front);
        let e = entry_cbor(items[n]);
        assert(items.last() == items[n]);
        lemma_plain(items[n].0);
        assert forall|i: int| 0 <= i < c.len() implies (#[trigger] c[i]).0 != e.0 by {
            assert(is_entry_of(c[i], front));
            let j = choose|j: int| 0 <= j < front.len() && c[i] == entry_cbor(#[trigger] front[j]);
            assert(front[j] == items[j]);
            assert(lt(items[j].0, items[n].0));
            lemma_value_keys(items[j].0, items[n].0, items[j].0);
            if c[i].0 == e.0 {
                assert(map_key(key_to_cbor(items[j].0), kind) == map_key(
                    key_to_cbor(items[n].0),
                    kind,
                ));
            }
        }
        lemma_cbor_insert(c, e.0, e.1);
        let d = entries_to_cbor(items);
        assert(d == cbor_insert(c, e.0, e.1));
        assert forall|j: int| 0 <= j < items.len() implies d.contains(
            entry_cbor(#[trigger] items[j]),
        ) by {
            if j < n {
                assert(front[j] == items[j]);
                assert(c.contains(entry_cbor(front[j])));
            }
        }
        assert forall|i: int| 0 <= i < d.len() implies is_entry_of(#[trigger] d[i], items) by {
            assert(d.contains(d[i]));
            if d[i] == e {
                assert(d[i] == entry_cbor(items[n]));
            } else {
                let k = c.index_of(d[i]);
                assert(is_entry_of(c[k], front));
                let j = choose|j: int|
                    0 <= j < front.len() && c[k] == entry_cbor(#[trigger] front[j]);
                assert(front[j] == items[j]);
                assert(d[i] == entry_cbor(items[j]));
            }
        }
    }
}

/// Whether `x` is an entry of a map whose entry of CBOR is in `c`.
pub open spec fn picked(
    x: (KeyTree, ValueTree),
    items: Seq<(KeyTree, ValueTree)>,
    c: Seq<(CborTree, CborTree)>,
) -> bool {
    exists|j: int|
        0 <= j < items.len() && x == #[trigger] items[j] && c.contains(entry_cbor(items[j]))
}

proof fn lemma_entries_read(
    c: Seq<(CborTree, CborTree)>,
    items: Seq<(KeyTree, ValueTree)>,
    kind: TypeMapKey,
    t: TypeExpr,
    m: Map<Seq<char>, TypeExpr>,
)
    requires
        settled(m, t),
        in_key_order(items),
        keys_fit(items, kind),
        forall|i: int| 0 <= i < c.len() ==> is_entry_of(#[trigger] c[i], items),
        forall|i: int, j: int|
            0 <= i < j < c.len() ==> (#[trigger] c[i]).0 != (#[trigger] c[j]).0,
        forall|j: int|
            0 <= j < items.len() ==> typed_value(value_to_cbor((#[trigger] items[j]).1), t, m)
                == Ok::<ValueTree, Seq<char>>(items[j].1),
    ensures
        typed_entries(c, kind, t, m) matches Ok(r) && in_key_order(r) && forall|
            x: (KeyTree, ValueTree),
        | #[trigger]
            r.contains(x) <==> picked(x, items, c),
    decreases c.len(),
{
    let lt = |a: KeyTree, b: KeyTree| value_key_lt(a, b);
    if c.len() > 0 {
        let front = c.drop_last();
        let n = c.len() - 1;
        assert forall|i: int| 0 <= i < front.len() implies is_entry_of(
            #[trigger] front[i],
            items,
        ) by {
            assert(front[i] == c[i]);
        }
        assert forall|i: int, j: int| 0 <= i < j < front.len() implies (#[trigger] front[i]).0 != (
        #[trigger] front[j]).0 by {
            assert(front[i] == c[i] && front[j] == c[j]);
        }
        lemma_entries_read(front, items, kind, t, m);
        let r0 = typed_entries(front, kind, t, m)->Ok_0;
        assert(is_entry_of(c[n], items));
        let p = choose|j: int| 0 <= j < items.len() && c[n] == entry_cbor(#[trigger] items[j]);
        assert(c.last() == c[n]);
        let k = items[p].0;
        let v = items[p].1;
        assert(map_key(c[n].0, kind) == Ok::<KeyTree, Seq<char>>(k));
        assert(typed_value(c[n].1, t, m) == Ok::<ValueTree, Seq<char>>(v));
        assert forall|i: int| 0 <= i < r0.len() implies (#[trigger] r0[i]).0 != k by {
            assert(r0.contains(r0[i]));
            assert(picked(r0[i], items, front));
            let j = choose|j: int|
                0 <= j < items.len() && r0[i] == #[trigger] items[j] && front.contains(
                    entry_cbor(items[j]),
                );
            let q = front.index_of(entry_cbor(items[j]));
            assert(front[q] == c[q]);
            assert(c[q].0 != c[n].0);
        }
        lemma_map_insert(r0, k, v);
        let r = map_insert(r0, k, v);
        assert(typed_entries(c, kind, t, m) == Ok::<Seq<(KeyTree, ValueTree)>, Seq<char>>(r));
        assert forall|x: (KeyTree, ValueTree)| #[trigger] r.contains(x) <==> picked(x, items, c) by {
            if r.contains(x) {
                if x == (k, v) {
                    assert(items[p] == x);
                    assert(c[n] == entry_cbor(items[p]));
                    assert(c.contains(entry_cbor(items[p])));
                } else {
                    assert(r0.contains(x));
                    let j = choose|j: int|
                        0 <= j < items.len() && x == #[trigger] items[j] && front.contains(
                            entry_cbor(items[j]),
                        );
                    let q = front.index_of(entry_cbor(items[j]));
                    assert(c[q] == front[q]);
                    assert(c.contains(entry_cbor(items[j])));
                }
            }
            if picked(x, items, c) {
                let j = choose|j: int|
                    0 <= j < items.len() && x == #[trigger] items[j] && c.contains(
                        entry_cbor(items[j]),
                    );
                let q = c.index_of(entry_cbor(items[j]));
                if q < n {
                    assert(front[q] == c[q]);
                    assert(front.contains(entry_cbor(items[j])));
                    assert(picked(x, items, front));
                    assert(r0.contains(x));
                } else {
                    assert(map_key(key_to_cbor(items[j].0), kind) == map_key(
                        key_to_cbor(items[p].0),
                        kind,
                    ));
                    if j < p {
                        assert(lt(items[j].0, items[p].0));
                        lemma_value_keys(items[j].0, items[p].0, items[j].0);
                    }
                    if p < j {
                        assert(lt(items[p].0, items[j].0));
                        lemma_value_keys(items[j].0, items[p].0, items[j].0);
                    }
                    assert(j == p);
                }
            }
        }
    } else {
        let r = Seq::<(KeyTree, ValueTree)>::empty();
        assert(typed_entries(c, kind, t, m) == Ok::<Seq<(KeyTree, ValueTree)>, Seq<char>>(r));
        assert forall|x: (KeyTree, ValueTree)| #[trigger] r.contains(x) <==> picked(x, items, c) by {}
    }
}

proof fn lemma_map_reads_back(
    items: Seq<(KeyTree, ValueTree)>,
    kind: TypeMapKey,
    t: TypeExpr,
    m: Map<Seq<char>, TypeExpr>,
)
    requires
        settled(m, t),
        in_key_order(items),
        keys_fit(items, kind),
        forall|j: int|
            0 <= j < items.len() ==> typed_value(value_to_cbor((#[trigger] items[j]).1), t, m)
                == Ok::<ValueTree, Seq<char>>(items[j].1),
    ensures
        typed_entries(entries_to_cbor(items), kind, t, m) == Ok::<
            Seq<(KeyTree, ValueTree)>,
            Seq<char>,
        >(items),
{
    let lt = |a: KeyTree, b: KeyTree| value_key_lt(a, b);
    let c = entries_to_cbor(items);
    lemma_entries_cbor(items, kind);
    lemma_cbor_keys_differ(c);
    lemma_entries_read(c, items, kind, t, m);
    let r = typed_entries(c, kind, t, m)->Ok_0;
    assert forall|x: (KeyTree, ValueTree)| #[trigger] r.contains(x) <==> items.contains(x) by {
        if items.contains(x) {
            let j = items.index_of(x);
            assert(c.contains(entry_cbor(items[j])));
            assert(picked(x, items, c));
        }
        if r.contains(x) {
            assert(picked(x, items, c));
        }
    }
    assert forall|a: KeyTree, b: KeyTree| #[trigger] lt(a, b) implies !lt(b, a) by {
        lemma_value_keys(a, b, a);
    }
    lemma_sorted_unique(r, items, lt);
}

proof fn lemma_cbor_keys_differ(c: Seq<(CborTree, CborTree)>)
    requires
        in_cbor_order(c),
    ensures
        forall|i: int, j: int|
            0 <= i < j < c.len() ==> (#[trigger] c[i]).0 != (#[trigger] c[j]).0,
{
    let lt = |a: CborTree, b: CborTree| key_lt(a, b);
    assert forall|i: int, j: int| 0 <= i < j < c.len() implies (#[trigger] c[i]).0 != (
    #[trigger] c[j]).0 by {
        assert(lt(c[i].0, c[j].0));
        match (c[i].0, c[j].0) {
            (CborTree::Text(x), CborTree::Text(y)) => {
                lemma_lex_irreflexive(x);
            },
            _ => {},
        }
    }
}

/// Whether a list of entries of CBOR holds those of the fields of a record, and no others.
pub open spec fn holds_fields(
    c: Seq<(CborTree, CborTree)>,
    items: Seq<(Seq<char>, ValueTree)>,
) -> bool {
    &&& forall|j: int| 0 <= j < items.len() ==> c.contains(field_cbor(#[trigger] items[j]))
    &&& forall|i: int| 0 <= i < c.len() ==> is_field_of(#[trigger] c[i], items)
}

pub open spec fn is_field_of(e: (CborTree, CborTree), items: Seq<(Seq<char>, ValueTree)>) -> bool {
    exists|j: int| 0 <= j < items.len() && e == field_cbor(#[trigger] items[j])
}

proof fn lemma_fields_cbor(items: Seq<(Seq<char>, ValueTree)>)
    requires
        in_field_order(items),
    ensures
        in_cbor_order(fields_to_cbor(items)),
        holds_fields(fields_to_cbor(items), items),
    decreases items.len(),
{
    if items.len() > 0 {
        let lt = |a: Seq<char>, b: Seq<char>| lex_lt(a, b);
        let front = items.drop_last();
        let n = items.len() - 1;
        assert forall|i: int, j: int| 0 <= i < j < front.len() implies lt(
            (#[trigger] front[i]).0,
            (#[trigger] front[j]).0,
        ) by {
            assert(front[i] == items[i] && front[j] == items[j]);
        }
        lemma_fields_cbor(front);
        let c = fields_to_cbor(front);
        let e = field_cbor(items[n]);
        assert(items.last() == items[n]);
        assert forall|i: int| 0 <= i < c.len() implies (#[trigger] c[i]).0 != e.0 by {
            assert(is_field_of(c[i], front));
            let j = choose|j: int| 0 <= j < front.len() && c[i] == field_cbor(#[trigger] front[j]);
            assert(front[j] == items[j]);
            assert(lt(items[j].0, items[n].0));
            lemma_lex_irreflexive(items[n].0);
        }
        lemma_cbor_insert(c, e.0, e.1);
        let d = fields_to_cbor(items);
        assert(d == cbor_insert(c, e.0, e.1));
        assert forall|j: int| 0 <= j < items.len() implies d.contains(
            field_cbor(#[trigger] items[j]),
        ) by {
            if j < n {
                assert(front[j] == items[j]);
                assert(c.contains(field_cbor(front[j])));
            }
        }
        assert forall|i: int| 0 <= i < d.len() implies is_field_of(#[trigger] d[i], items) by {
            assert(d.contains(d[i]));
            if d[i] == e {
                assert(d[i] == field_cbor(items[n]));
            } else {
                let k = c.index_of(d[i]);
                assert(is_field_of(c[k], front));
                let j = choose|j: int|
                    0 <= j < front.len() && c[k] == field_cbor(#[trigger] front[j]);
                assert(front[j] == items[j]);
                assert(d[i] == field_cbor(items[j]));
            }
        }
    }
}

/// The entry with a text key is found by the text, where no key stands twice.
proof fn lemma_text_found(c: Seq<(CborTree, CborTree)>, name: Seq<char>, w: CborTree)
    requires
        forall|i: int, j: int|
            0 <= i < j < c.len() ==> (#[trigger] c[i]).0 != (#[trigger] c[j]).0,
        c.contains((CborTree::Text(name), w)),
    ensures
        0 <= text_index(c, name) < c.len(),
        c[text_index(c, name)].1 == w,
    decreases c.len(),
{
    let p = c.index_of((CborTree::Text(name), w));
    if c[0].0 == CborTree::Text(name) {
        if p > 0 {
            assert(c[0].0 != c[p].0);
        }
    } else {
        let rest = c.drop_first();
        assert forall|i: int, j: int| 0 <= i < j < rest.len() implies (#[trigger] rest[i]).0 != (
        #[trigger] rest[j]).0 by {
            assert(rest[i] == c[i + 1] && rest[j] == c[j + 1]);
        }
        assert(p > 0);
        assert(rest[p - 1] == c[p]);
        assert(rest.contains((CborTree::Text(name), w)));
        lemma_text_found(rest, name, w);
        assert(rest[text_index(rest, name)] == c[text_index(rest, name) + 1]);
    }
}

/// Whether what the parts of a type stand for settles.
pub open spec fn parts_settled(
    parts: Seq<(String, TypeExpr)>,
    m: Map<Seq<char>, TypeExpr>,
) -> bool {
    forall|i: int|
        0 <= i < parts.len() ==> (resolved(m, (#[trigger] parts[i]).1) matches Some(t) ==> settled(
            m,
            t,
        ))
}

/// Whether `x` is a field of a record that is among the fields of a type.
pub open spec fn field_picked(
    x: (Seq<char>, ValueTree),
    items: Seq<(Seq<char>, ValueTree)>,
    fields: Seq<(String, TypeExpr)>,
) -> bool {
    items.contains(x) && exists|i: int| 0 <= i < fields.len() && (#[trigger] fields[i]).0@ == x.0
}

proof fn lemma_fields_read(
    items: Seq<(Seq<char>, ValueTree)>,
    fields: Seq<(String, TypeExpr)>,
    m: Map<Seq<char>, TypeExpr>,
)
    requires
        parts_settled(fields, m),
        in_field_order(items),
        parts_once(fields),
        forall|i: int|
            0 <= i < fields.len() ==> field_reads_back(items, #[trigger] fields[i], m),
    ensures
        typed_fields(fields_to_cbor(items), fields, m) matches Ok(r) && in_field_order(r)
            && forall|x: (Seq<char>, ValueTree)| #[trigger]
            r.contains(x) <==> field_picked(x, items, fields),
    decreases fields.len(),
{
    let lt = |a: Seq<char>, b: Seq<char>| lex_lt(a, b);
    let c = fields_to_cbor(items);
    if fields.len() > 0 {
        let front = fields.drop_last();
        let n = fields.len() - 1;
        assert forall|i: int, j: int| 0 <= i < j < front.len() implies (#[trigger] front[i]).0@ != (
        #[trigger] front[j]).0@ by {
            assert(front[i] == fields[i] && front[j] == fields[j]);
        }
        assert forall|i: int| 0 <= i < front.len() implies field_reads_back(
            items,
            #[trigger] front[i],
            m,
        ) by {
            assert(front[i] == fields[i]);
        }
        lemma_fields_read(items, front, m);
        let r0 = typed_fields(c, front, m)->Ok_0;
        assert(fields.last() == fields[n]);
        assert(field_reads_back(items, fields[n], m));
        let name = fields[n].0@;
        let p = choose|j: int|
            0 <= j < items.len() && (#[trigger] items[j]).0 == name && resolved(m, fields[n].1)
                is Some && typed_value(
                value_to_cbor(items[j].1),
                resolved(m, fields[n].1)->Some_0,
                m,
            ) == Ok::<ValueTree, Seq<char>>(items[j].1);
        lemma_fields_cbor(items);
        lemma_cbor_keys_differ(c);
        assert(c.contains(field_cbor(items[p])));
        lemma_text_found(c, name, value_to_cbor(items[p].1));
        let v = items[p].1;
        assert forall|i: int| 0 <= i < r0.len() implies (#[trigger] r0[i]).0 != name by {
            assert(r0.contains(r0[i]));
            assert(field_picked(r0[i], items, front));
            let j = choose|j: int| 0 <= j < front.len() && (#[trigger] front[j]).0@ == r0[i].0;
            assert(front[j] == fields[j]);
            assert(fields[j].0@ != fields[n].0@);
        }
        lemma_name_insert(r0, name, v);
        let r = name_insert(r0, name, v);
        assert(typed_fields(c, fields, m) == Ok::<Seq<(Seq<char>, ValueTree)>, Seq<char>>(r));
        assert forall|x: (Seq<char>, ValueTree)| #[trigger]
            r.contains(x) <==> field_picked(x, items, fields) by {
            if r.contains(x) {
                if x == (name, v) {
                    assert(items[p] == x);
                    assert(fields[n].0@ == x.0);
                } else {
                    assert(r0.contains(x));
                    let j = choose|j: int| 0 <= j < front.len() && (#[trigger] front[j]).0@ == x.0;
                    assert(fields[j] == front[j]);
                }
            }
            if field_picked(x, items, fields) {
                let j = choose|j: int| 0 <= j < fields.len() && (#[trigger] fields[j]).0@ == x.0;
                if j < n {
                    assert(front[j] == fields[j]);
                    assert(field_picked(x, items, front));
                    assert(r0.contains(x));
                } else {
                    let q = items.index_of(x);
                    if q < p {
                        assert(lt(items[q].0, items[p].0));
                        lemma_lex_irreflexive(name);
                    }
                    if p < q {
                        assert(lt(items[p].0, items[q].0));
                        lemma_lex_irreflexive(name);
                    }
                    assert(x == (name, v));
                }
            }
        }
    } else {
        let r = Seq::<(Seq<char>, ValueTree)>::empty();
        assert(typed_fields(c, fields, m) == Ok::<Seq<(Seq<char>, ValueTree)>, Seq<char>>(r));
        assert forall|x: (Seq<char>, ValueTree)| #[trigger]
            r.contains(x) <==> field_picked(x, items, fields) by {}
    }
}

/// Whether a record has a field of a type's field, whose value is read back.
pub open spec fn field_reads_back(
    items: Seq<(Seq<char>, ValueTree)>,
    field: (String, TypeExpr),
    m: Map<Seq<char>, TypeExpr>,
) -> bool {
    exists|j: int|
        0 <= j < items.len() && (#[trigger] items[j]).0 == field.0@ && resolved(m, field.1) is Some
            && typed_value(value_to_cbor(items[j].1), resolved(m, field.1)->Some_0, m) == Ok::<
            ValueTree,
            Seq<char>,
        >(items[j].1)
}

proof fn lemma_record_reads_back(
    items: Seq<(Seq<char>, ValueTree)>,
    fields: Seq<(String, TypeExpr)>,
    m: Map<Seq<char>, TypeExpr>,
)
    requires
        parts_settled(fields, m),
        in_field_order(items),
        parts_once(fields),
        forall|i: int| 0 <= i < fields.len() ==> has_field(items, (#[trigger] fields[i]).0@),
        forall|j: int|
            0 <= j < items.len() ==> part_type(fields, (#[trigger] items[j]).0, m) is Some
                && typed_value(
                value_to_cbor(items[j].1),
                part_type(fields, items[j].0, m)->Some_0,
                m,
            ) == Ok::<ValueTree, Seq<char>>(items[j].1),
    ensures
        typed_fields(fields_to_cbor(items), fields, m) == Ok::<
            Seq<(Seq<char>, ValueTree)>,
            Seq<char>,
        >(items),
{
    let lt = |a: Seq<char>, b: Seq<char>| lex_lt(a, b);
    assert forall|i: int| 0 <= i < fields.len() implies field_reads_back(
        items,
        #[trigger] fields[i],
        m,
    ) by {
        let j = choose|j: int| 0 <= j < items.len() && (#[trigger] items[j]).0 == fields[i].0@;
        lemma_name_index(fields, fields[i].0@);
        let k = name_index(fields, fields[i].0@);
        if k < i {
            assert(fields[k].0@ != fields[i].0@);
        }
        if i < k {
            assert(fields[i].0@ != fields[i].0@);
        }
        assert(k == i);
        assert(part_type(fields, items[j].0, m) == resolved(m, fields[i].1));
    }
    lemma_fields_read(items, fields, m);
    let r = typed_fields(fields_to_cbor(items), fields, m)->Ok_0;
    assert forall|x: (Seq<char>, ValueTree)| #[trigger] r.contains(x) <==> items.contains(x) by {
        if items.contains(x) {
            let j = items.index_of(x);
            assert(part_type(fields, items[j].0, m) is Some);
            lemma_name_index(fields, items[j].0);
            let k = name_index(fields, items[j].0);
            assert(fields[k].0@ == x.0);
            assert(field_picked(x, items, fields));
        }
        if r.contains(x) {
            assert(field_picked(x, items, fields));
        }
    }
    assert forall|a: Seq<char>, b: Seq<char>| #[trigger] lt(a, b) implies !lt(b, a) by {
        lemma_lex_order(a, b);
    }
    lemma_sorted_unique(r, items, lt);
}

proof fn lemma_set_reads_back(keys: Seq<KeyTree>, t: TypeExpr)
    requires
        keys_in_order(keys),
        forall|i: int|
            0 <= i < keys.len() ==> set_key(key_to_cbor(#[trigger] keys[i]), t) == Ok::<
                KeyTree,
                Seq<char>,
            >(keys[i]),
    ensures
        typed_set(Seq::new(keys.len(), |i: int| key_to_cbor(keys[i])), t) == Ok::<
            Seq<KeyTree>,
            Seq<char>,
        >(keys),
    decreases keys.len(),
{
    let c = Seq::new(keys.len(), |i: int| key_to_cbor(keys[i]));
    if keys.len() > 0 {
        let front = keys.drop_last();
        let k = keys[keys.len() - 1];
        assert forall|i: int, j: int| 0 <= i < j < front.len() implies #[trigger] front[i]
            != #[trigger] front[j] && !value_key_lt(front[j], front[i]) by {
            assert(front[i] == keys[i] && front[j] == keys[j]);
        }
        assert forall|i: int| 0 <= i < front.len() implies set_key(
            key_to_cbor(#[trigger] front[i]),
            t,
        ) == Ok::<KeyTree, Seq<char>>(front[i]) by {
            assert(front[i] == keys[i]);
        }
        lemma_set_reads_back(front, t);
        assert(c.drop_last() =~= Seq::new(front.len(), |i: int| key_to_cbor(front[i])));
        assert forall|i: int| 0 <= i < front.len() implies #[trigger] front[i] != k
            && !value_key_lt(k, front[i]) by {
            assert(front[i] == keys[i]);
        }
        lemma_set_insert_last(front, k);
        assert(front.push(k) =~= keys);
        assert(c.last() == key_to_cbor(k));
    } else {
        assert(keys =~= Seq::empty());
        assert(c =~= Seq::empty());
    }
}

proof fn lemma_list_reads_back(items: Seq<ValueTree>, t: TypeExpr, m: Map<Seq<char>, TypeExpr>)
    requires
        settled(m, t),
        forall|i: int|
            0 <= i < items.len() ==> typed_value(value_to_cbor(#[trigger] items[i]), t, m) == Ok::<
                ValueTree,
                Seq<char>,
            >(items[i]),
    ensures
        typed_values(values_to_cbor(items), t, m) == Ok::<Seq<ValueTree>, Seq<char>>(items),
    decreases items.len(),
{
    if items.len() > 0 {
        let front = items.drop_last();
        assert forall|i: int| 0 <= i < front.len() implies typed_value(
            value_to_cbor(#[trigger] front[i]),
            t,
            m,
        ) == Ok::<ValueTree, Seq<char>>(front[i]) by {
            assert(front[i] == items[i]);
        }
        lemma_list_reads_back(front, t, m);
        assert(items.last() == items[items.len() - 1]);
        let c = values_to_cbor(front);
        assert(c.push(value_to_cbor(items.last())).drop_last() =~= c);
        assert(front.push(items.last()) =~= items);
    } else {
        assert(items =~= Seq::empty());
    }
}

proof fn lemma_part_type(
    parts: Seq<(String, TypeExpr)>,
    name: Seq<char>,
    m: Map<Seq<char>, TypeExpr>,
)
    ensures
        part_type(parts, name, m) matches Some(t) ==> among_parts(m, parts, t),
{
    lemma_name_index(parts, name);
}

/// A value of a type is what its CBOR reads back as under the type.
pub proof fn lemma_typed_value_reads_back(
    v: ValueTree,
    ty: TypeExpr,
    m: Map<Seq<char>, TypeExpr>,
)
    requires
        type_settles(m, ty),
        has_type(v, ty, m),
    ensures
        typed_value(value_to_cbor(v), ty, m) == Ok::<ValueTree, Seq<char>>(v),
    decreases v, settle_steps(m, ty), 1nat,
{
    lemma_type_settles(m, ty);
    lemma_settle_step(m, ty);
    match ty {
        TypeExpr::Primitive(_) => {},
        TypeExpr::Record(fields) => {
            let items = v->Record_0;
            assert(parts_settled(fields@, m)) by {
                assert forall|i: int| 0 <= i < fields@.len() implies (resolved(
                    m,
                    (#[trigger] fields@[i]).1,
                ) matches Some(t) ==> settled(m, t)) by {
                    if let Some(t) = resolved(m, fields@[i].1) {
                        assert(is_part(m, ty, t));
                        lemma_type_settles(m, t);
                    }
                }
            }
            assert forall|j: int| 0 <= j < items.len() implies part_type(
                fields@,
                (#[trigger] items[j]).0,
                m,
            ) is Some && typed_value(
                value_to_cbor(items[j].1),
                part_type(fields@, items[j].0, m)->Some_0,
                m,
            ) == Ok::<ValueTree, Seq<char>>(items[j].1) by {
                let t = part_type(fields@, items[j].0, m)->Some_0;
                lemma_part_type(fields@, items[j].0, m);
                assert(is_part(m, ty, t));
                lemma_type_settles(m, t);
                lemma_typed_value_reads_back(items[j].1, t, m);
            }
            lemma_record_reads_back(items, fields@, m);
        },
        TypeExpr::Variant(arms) => {
            lemma_variant_reads_back(v, arms, m);
        },
        TypeExpr::List(elem) => {
            let items = v->List_0;
            let t = resolved(m, *elem)->Some_0;
            assert(is_part(m, ty, t));
            lemma_type_settles(m, t);
            assert forall|i: int| 0 <= i < items.len() implies typed_value(
                value_to_cbor(#[trigger] items[i]),
                t,
                m,
            ) == Ok::<ValueTree, Seq<char>>(items[i]) by {
                lemma_typed_value_reads_back(items[i], t, m);
            }
            lemma_list_reads_back(items, t, m);
        },
        TypeExpr::SetOf(elem) => {
            lemma_set_reads_back(v->SetOf_0, resolved(m, *elem)->Some_0);
        },
        TypeExpr::Mapping(kind, elem) => {
            let items = v->Mapping_0;
            let t = resolved(m, *elem)->Some_0;
            assert(is_part(m, ty, t));
            lemma_type_settles(m, t);
            assert forall|j: int| 0 <= j < items.len() implies typed_value(
                value_to_cbor((#[trigger] items[j]).1),
                t,
                m,
            ) == Ok::<ValueTree, Seq<char>>(items[j].1) by {
                lemma_typed_value_reads_back(items[j].1, t, m);
            }
            lemma_map_reads_back(items, kind, t, m);
        },
        TypeExpr::OptionOf(inner) => {
            if v !is Null {
                assert(is_part(m, ty, resolved(m, *inner)->Some_0));
                lemma_typed_value_reads_back(v, resolved(m, *inner)->Some_0, m);
            }
        },
        TypeExpr::Ref(name) => {
            assert(is_part(m, ty, m[name@]));
            lemma_typed_value_reads_back(v, m[name@], m);
        },
    }
}

proof fn lemma_variant_reads_back(
    v: ValueTree,
    arms: Vec<(String, TypeExpr)>,
    m: Map<Seq<char>, TypeExpr>,
)
    requires
        type_settles(m, TypeExpr::Variant(arms)),
        has_type(v, TypeExpr::Variant(arms), m),
    ensures
        typed_value(value_to_cbor(v), TypeExpr::Variant(arms), m) == Ok::<ValueTree, Seq<char>>(v),
    decreases v, settle_steps(m, TypeExpr::Variant(arms)), 0nat,
{
    let items = v->Record_0;
    let tag = items[0].1->Text_0;
    lemma_type_settles(m, TypeExpr::Variant(arms));
    reveal_strlit("$tag");
    reveal_strlit("$value");
    assert("$tag"@.len() == 4 && "$value"@.len() == 6);
    lemma_name_index(arms@, tag);
    reveal_with_fuel(text_index, 3);
    if items.len() == 2 {
        let t = part_type(arms@, tag, m)->Some_0;
        lemma_part_type(arms@, tag, m);
        assert(is_part(m, TypeExpr::Variant(arms), t));
        lemma_type_settles(m, t);
        lemma_typed_value_reads_back(items[1].1, t, m);
        assert(record_get(items, "$tag"@) == Some(items[0].1));
        assert(variant_tag(items) == Some(tag));
        let rest = items.drop_first();
        assert(rest[0] == items[1]);
        reveal_with_fuel(field_to_cbor, 3);
        assert(field_to_cbor(items, "$value"@) == value_to_cbor(items[1].1));
        let c = seq![(CborTree::Text(tag), value_to_cbor(items[1].1))];
        assert(value_to_cbor(v) == CborTree::Mapping(c));
        assert(c.drop_first().len() == 0);
        assert(text_index(c, "$tag"@) == 1);
        assert(items =~= seq![("$tag"@, ValueTree::Text(tag)), ("$value"@, items[1].1)]);
    } else {
        let one = seq![items[0]];
        assert(items =~= one);
        assert(items.drop_last().len() == 0);
        assert(items.last() == items[0]);
        reveal_with_fuel(fields_to_cbor, 3);
        assert(fields_to_cbor(items.drop_last()) =~= Seq::empty());
        let c = seq![(CborTree::Text("$tag"@), CborTree::Text(tag))];
        assert(fields_to_cbor(items) =~= c);
        assert(value_to_cbor(v) == CborTree::Mapping(c));
        assert(c.drop_first().len() == 0);
        assert(text_index(c, "$tag"@) == 0);
        assert(text_index(c, "$value"@) == 1);
        assert(items =~= seq![("$tag"@, ValueTree::Text(tag))]);
    }
}

} // verus!
