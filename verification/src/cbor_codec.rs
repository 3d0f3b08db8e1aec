//! Conversions between values and CBOR.
use vstd::prelude::*;
use vstd::string::*;

use crate::cbor::{cbor_parsed, cbor_printed, clone_bytes, decode_cbor, encode_cbor, is_plain_key, key_lt, keys_of, lemma_array_tree, lemma_map_tree,
    plain_order, trees, writable, CborTree, CborValue};
use crate::error::{is_manifest_error, KernelError};
use crate::hash::{hash_fault, hex_bytes, is_hash_text, ContentHash, HashRef};
use crate::text::{decimal, decimal_text, join2, lemma_lex_total, lemma_lex_transitive, str_eq,
    str_lt};
use crate::value::{entry_trees, field_trees, get_field, insert_entry, insert_field, key_trees,
    lemma_value_tree, map_insert, record_get, record_insert, value_kind, value_trees, ExprValue, KeyTree, ValueKey, ValueTree};

verus! {

/// The map with `k` bound to `v`, its plain keys in canonical order.
pub open spec fn cbor_insert(
    s: Seq<(CborTree, CborTree)>,
    k: CborTree,
    v: CborTree,
) -> Seq<(CborTree, CborTree)>
    decreases s.len(),
{
    if s.len() == 0 {
        seq![(k, v)]
    } else if s[0].0 == k {
        seq![(k, v)] + s.drop_first()
    } else if key_lt(k, s[0].0) {
        seq![(k, v)] + s
    } else {
        seq![s[0]] + cbor_insert(s.drop_first(), k, v)
    }
}

/// Plain keys are ordered totally.
pub proof fn lemma_key_total(a: CborTree, b: CborTree)
    requires
        is_plain_key(a),
        is_plain_key(b),
    ensures
        a == b || key_lt(a, b) || key_lt(b, a),
{
    match (a, b) {
        (CborTree::Text(x), CborTree::Text(y)) => {
            lemma_lex_total(x, y);
        },
        _ => {},
    }
}

pub proof fn lemma_key_transitive(a: CborTree, b: CborTree, c: CborTree)
    requires
        is_plain_key(a),
        is_plain_key(b),
        is_plain_key(c),
        key_lt(a, b),
        key_lt(b, c),
    ensures
        key_lt(a, c),
{
    match (a, b, c) {
        (CborTree::Text(x), CborTree::Text(y), CborTree::Text(z)) => {
            if lex_of(x, y) && lex_of(y, z) {
                lemma_lex_transitive(x, y, z);
            }
        },
        _ => {},
    }
}

spec fn lex_of(x: Seq<char>, y: Seq<char>) -> bool {
    crate::text::lex_lt(x, y)
}

/// Inserting keeps the canonical order, and puts no key in but the new one.
pub proof fn lemma_cbor_insert_order(s: Seq<(CborTree, CborTree)>, k: CborTree, v: CborTree)
    requires
        plain_order(keys_of(s)),
        is_plain_key(k),
    ensures
        plain_order(keys_of(cbor_insert(s, k, v))),
        forall|i: int|
            #![trigger cbor_insert(s, k, v)[i]]
            0 <= i < cbor_insert(s, k, v).len() ==> (cbor_insert(s, k, v)[i] == (k, v) || s.contains(
                cbor_insert(s, k, v)[i],
            )),
    decreases s.len(),
{
    let t = cbor_insert(s, k, v);
    let ks = keys_of(s);
    let kt = keys_of(t);
    if s.len() == 0 {
    } else if s[0].0 == k {
        assert(kt =~= ks);
        assert forall|i: int| 0 <= i < t.len() implies (#[trigger] t[i] == (k, v) || s.contains(
            t[i],
        )) by {
            if i > 0 {
                assert(t[i] == s[i]);
            }
        }
    } else if key_lt(k, s[0].0) {
        assert(kt =~= seq![k] + ks);
        assert forall|i: int, j: int| 0 <= i < j < kt.len() implies key_lt(
            #[trigger] kt[i],
            #[trigger] kt[j],
        ) by {
            assert(kt[j] == ks[j - 1]);
            if i == 0 {
                if j > 1 {
                    assert(key_lt(ks[0], ks[j - 1]));
                    lemma_key_transitive(k, ks[0], ks[j - 1]);
                }
            } else {
                assert(kt[i] == ks[i - 1]);
            }
        }
        assert forall|i: int| 0 <= i < t.len() implies (#[trigger] t[i] == (k, v) || s.contains(
            t[i],
        )) by {
            if i > 0 {
                assert(t[i] == s[i - 1]);
            }
        }
    } else {
        let rest = s.drop_first();
        let after = cbor_insert(rest, k, v);
        assert(keys_of(rest) =~= ks.drop_first());
        assert(plain_order(keys_of(rest))) by {
            assert forall|i: int| 0 <= i < keys_of(rest).len() implies is_plain_key(
                #[trigger] keys_of(rest)[i],
            ) by {
                assert(keys_of(rest)[i] == ks[i + 1]);
            }
            assert forall|i: int, j: int| 0 <= i < j < keys_of(rest).len() implies key_lt(
                #[trigger] keys_of(rest)[i],
                #[trigger] keys_of(rest)[j],
            ) by {
                assert(keys_of(rest)[i] == ks[i + 1]);
                assert(keys_of(rest)[j] == ks[j + 1]);
            }
        }
        lemma_cbor_insert_order(rest, k, v);
        lemma_key_total(k, s[0].0);
        assert(kt =~= seq![s[0].0] + keys_of(after));
        assert(is_plain_key(ks[0]));
        assert forall|i: int| 0 <= i < kt.len() implies is_plain_key(#[trigger] kt[i]) by {
            if i > 0 {
                assert(kt[i] == keys_of(after)[i - 1]);
            }
        }
        assert forall|i: int, j: int| 0 <= i < j < kt.len() implies key_lt(
            #[trigger] kt[i],
            #[trigger] kt[j],
        ) by {
            assert(kt[j] == keys_of(after)[j - 1]);
            if i == 0 {
                assert(after[j - 1] == (k, v) || rest.contains(after[j - 1]));
                if after[j - 1] != (k, v) {
                    let m = choose|m: int| 0 <= m < rest.len() && rest[m] == after[j - 1];
                    assert(ks[m + 1] == after[j - 1].0);
                    assert(key_lt(ks[0], ks[m + 1]));
                }
            } else {
                assert(kt[i] == keys_of(after)[i - 1]);
            }
        }
        assert forall|i: int| 0 <= i < t.len() implies (#[trigger] t[i] == (k, v) || s.contains(
            t[i],
        )) by {
            if i > 0 {
                assert(t[i] == after[i - 1]);
                if after[i - 1] != (k, v) {
                    let m = choose|m: int| 0 <= m < rest.len() && rest[m] == after[i - 1];
                    assert(s[m + 1] == after[i - 1]);
                }
            } else {
                assert(t[0] == s[0]);
            }
        }
    }
}

/// Whether the key `a` comes before the key `b`.
fn key_before(a: &CborValue, b: &CborValue) -> (r: bool)
    ensures
        r == key_lt(a@, b@),
{
    match (a, b) {
        (CborValue::Integer(x), CborValue::Integer(y)) => if *x >= 0 && *y >= 0 {
            *x < *y
        } else if *x < 0 && *y < 0 {
            *y < *x
        } else {
            *x >= 0
        },
        (CborValue::Integer(_), CborValue::Text(_)) => true,
        (CborValue::Text(x), CborValue::Text(y)) => {
            let m: usize = x.as_str().as_bytes().len();
            let n: usize = y.as_str().as_bytes().len();
            m < n || (m == n && str_lt(x.as_str(), y.as_str()))
        },
        _ => false,
    }
}

/// Whether two plain keys are equal.
fn key_same(a: &CborValue, b: &CborValue) -> (r: bool)
    requires
        is_plain_key(a@),
    ensures
        r == (a@ == b@),
{
    match (a, b) {
        (CborValue::Integer(x), CborValue::Integer(y)) => *x == *y,
        (CborValue::Text(x), CborValue::Text(y)) => str_eq(x.as_str(), y.as_str()),
        _ => false,
    }
}

/// Binds `k` to `v` in a map.
pub fn insert_cbor(entries: &mut Vec<(CborValue, CborValue)>, k: CborValue, v: CborValue)
    requires
        is_plain_key(k@),
    ensures
        crate::cbor::entry_trees(final(entries)@) == cbor_insert(
            crate::cbor::entry_trees(old(entries)@),
            k@,
            v@,
        ),
{
    let ghost s = crate::cbor::entry_trees(entries@);
    let ghost kt = k@;
    let ghost vt = v@;
    let mut i: usize = 0;
    assert(s.take(0) + cbor_insert(s.skip(0), kt, vt) =~= cbor_insert(s, kt, vt)) by {
        assert(s.skip(0) =~= s);
    }
    while i < entries.len()
        invariant
            i <= entries@.len(),
            s == crate::cbor::entry_trees(entries@),
            *entries == *old(entries),
            kt == k@,
            vt == v@,
            is_plain_key(kt),
            cbor_insert(s, kt, vt) == s.take(i as int) + cbor_insert(s.skip(i as int), kt, vt),
        decreases entries@.len() - i,
    {
        assert(s.skip(i as int)[0].0 == entries@[i as int].0@);
        assert(s.skip(i as int).drop_first() =~= s.skip(i + 1));
        if key_same(&k, &entries[i].0) {
            entries.set(i, (k, v));
            assert(crate::cbor::entry_trees(entries@) =~= s.take(i as int) + (seq![(kt, vt)]
                + s.skip(i + 1)));
            return ;
        }
        if key_before(&k, &entries[i].0) {
            entries.insert(i, (k, v));
            assert(crate::cbor::entry_trees(entries@) =~= s.take(i as int) + (seq![(kt, vt)]
                + s.skip(i as int)));
            return ;
        }
        assert(s.take(i as int) + (seq![s[i as int]] + cbor_insert(s.skip(i + 1), kt, vt))
            =~= s.take(i + 1) + cbor_insert(s.skip(i + 1), kt, vt));
        i += 1;
    }
    assert(s.take(i as int) + cbor_insert(s.skip(i as int), kt, vt) =~= s + seq![(kt, vt)]);
    entries.push((k, v));
    assert(crate::cbor::entry_trees(entries@) =~= s + seq![(kt, vt)]);
}

/// The CBOR key of a key.
pub open spec fn key_to_cbor(k: KeyTree) -> CborTree {
    match k {
        KeyTree::Int(i) => CborTree::Integer(i as i128),
        KeyTree::Nat(n) => CborTree::Integer(n as i128),
        KeyTree::Text(t) => CborTree::Text(t),
        KeyTree::Hash(t) => CborTree::Text(t),
        KeyTree::Uuid(t) => CborTree::Text(t),
    }
}

/// The CBOR value of a value.
pub open spec fn value_to_cbor(v: ValueTree) -> CborTree
    decreases v, 1int,
{
    match v {
        ValueTree::Unit => CborTree::Null,
        ValueTree::Null => CborTree::Null,
        ValueTree::Bool(b) => CborTree::Bool(b),
        ValueTree::Int(i) => CborTree::Integer(i as i128),
        ValueTree::Nat(n) => CborTree::Integer(n as i128),
        ValueTree::Dec128(t) => CborTree::Text(t),
        ValueTree::Bytes(b) => CborTree::Bytes(b),
        ValueTree::Text(t) => CborTree::Text(t),
        ValueTree::TimeNs(n) => CborTree::Integer(n as i128),
        ValueTree::DurationNs(i) => CborTree::Integer(i as i128),
        ValueTree::Hash(t) => CborTree::Text(t),
        ValueTree::Uuid(t) => CborTree::Text(t),
        ValueTree::List(items) => CborTree::Array(values_to_cbor(items)),
        ValueTree::SetOf(keys) => CborTree::Array(
            Seq::new(keys.len(), |i: int| key_to_cbor(keys[i])),
        ),
        ValueTree::Mapping(entries) => CborTree::Mapping(entries_to_cbor(entries)),
        ValueTree::Record(fields) => match variant_tag(fields) {
            Some(tag) => CborTree::Mapping(
                seq![(CborTree::Text(tag), field_to_cbor(fields, "$value"@))],
            ),
            None => CborTree::Mapping(fields_to_cbor(fields)),
        },
    }
}

/// The tag of a record of two fields that stands for a variant.
pub open spec fn variant_tag(fields: Seq<(Seq<char>, ValueTree)>) -> Option<Seq<char>> {
    if fields.len() == 2 {
        match record_get(fields, "$tag"@) {
            Some(ValueTree::Text(tag)) => Some(tag),
            _ => None,
        }
    } else {
        None
    }
}

pub open spec fn values_to_cbor(items: Seq<ValueTree>) -> Seq<CborTree>
    decreases items, 0int,
{
    if items.len() == 0 {
        Seq::empty()
    } else {
        values_to_cbor(items.drop_last()).push(value_to_cbor(items.last()))
    }
}

pub open spec fn entries_to_cbor(items: Seq<(KeyTree, ValueTree)>) -> Seq<(CborTree, CborTree)>
    decreases items, 0int,
{
    if items.len() == 0 {
        Seq::empty()
    } else {
        cbor_insert(
            entries_to_cbor(items.drop_last()),
            key_to_cbor(items.last().0),
            value_to_cbor(items.last().1),
        )
    }
}

pub open spec fn fields_to_cbor(items: Seq<(Seq<char>, ValueTree)>) -> Seq<(CborTree, CborTree)>
    decreases items, 0int,
{
    if items.len() == 0 {
        Seq::empty()
    } else {
        cbor_insert(
            fields_to_cbor(items.drop_last()),
            CborTree::Text(items.last().0),
            value_to_cbor(items.last().1),
        )
    }
}

/// The CBOR value of the field `name`; null where there is no such field.
pub open spec fn field_to_cbor(fields: Seq<(Seq<char>, ValueTree)>, name: Seq<char>) -> CborTree
    decreases fields, 0int,
{
    if fields.len() == 0 {
        CborTree::Null
    } else if fields[0].0 == name {
        value_to_cbor(fields[0].1)
    } else {
        field_to_cbor(fields.drop_first(), name)
    }
}

proof fn lemma_field_to_cbor(fields: Seq<(Seq<char>, ValueTree)>, name: Seq<char>)
    ensures
        field_to_cbor(fields, name) == match record_get(fields, name) {
            None => CborTree::Null,
            Some(v) => value_to_cbor(v),
        },
    decreases fields.len(),
{
    if fields.len() > 0 && fields[0].0 != name {
        lemma_field_to_cbor(fields.drop_first(), name);
    }
}

fn value_key_to_cbor(key: &ValueKey) -> (r: CborValue)
    ensures
        r@ == key_to_cbor(key@),
        is_plain_key(r@),
{
    match key {
        ValueKey::Int(i) => CborValue::Integer(*i as i128),
        ValueKey::Nat(n) => CborValue::Integer(*n as i128),
        ValueKey::Text(t) => CborValue::Text(t.clone()),
        ValueKey::Hash(t) => CborValue::Text(t.clone()),
        ValueKey::Uuid(t) => CborValue::Text(t.clone()),
    }
}

/// The CBOR value of a value.
pub fn expr_value_to_cbor_value(value: &ExprValue) -> (r: CborValue)
    ensures
        r@ == value_to_cbor(value@),
    decreases value,
{
    broadcast use lemma_value_tree;

    match value {
        ExprValue::Unit => CborValue::Null,
        ExprValue::Null => CborValue::Null,
        ExprValue::Bool(b) => CborValue::Bool(*b),
        ExprValue::Int(i) => CborValue::Integer(*i as i128),
        ExprValue::Nat(n) => CborValue::Integer(*n as i128),
        ExprValue::Dec128(t) => CborValue::Text(t.clone()),
        ExprValue::Bytes(b) => CborValue::Bytes(clone_bytes(b)),
        ExprValue::Text(t) => CborValue::Text(t.clone()),
        ExprValue::TimeNs(n) => CborValue::Integer(*n as i128),
        ExprValue::DurationNs(i) => CborValue::Integer(*i as i128),
        ExprValue::Hash(h) => CborValue::Text(h.as_str().to_owned()),
        ExprValue::Uuid(t) => CborValue::Text(t.clone()),
        ExprValue::List(items) => {
            let ghost all = value_trees(items@);
            let mut out: Vec<CborValue> = Vec::new();
            let mut i: usize = 0;
            assert(all.take(0) =~= Seq::empty());
            assert(trees(out@) =~= Seq::empty());
            while i < items.len()
                invariant
                    i <= items@.len(),
                    *value == ExprValue::List(*items),
                    all == value_trees(items@),
                    trees(out@) == values_to_cbor(all.take(i as int)),
                decreases items@.len() - i,
            {
                assert(value->List_0@[i as int] == items@[i as int]);
                assert(all.take(i + 1).drop_last() =~= all.take(i as int));
                let ghost before = trees(out@);
                let c = expr_value_to_cbor_value(&items[i]);
                let ghost t = c@;
                out.push(c);
                assert(trees(out@) =~= before.push(t));
                i += 1;
            }
            assert(all.take(i as int) =~= all);
            let r = CborValue::Array(out);
            proof {
                lemma_array_tree(r);
            }
            r
        },
        ExprValue::SetOf(keys) => {
            let mut out: Vec<CborValue> = Vec::new();
            let mut i: usize = 0;
            while i < keys.len()
                invariant
                    i == out@.len(),
                    i <= keys@.len(),
                    forall|k: int| 0 <= k < i ==> (#[trigger] out@[k])@ == key_to_cbor(keys@[k]@),
                decreases keys@.len() - i,
            {
                out.push(value_key_to_cbor(&keys[i]));
                i += 1;
            }
            let r = CborValue::Array(out);
            proof {
                lemma_array_tree(r);
                assert(trees(r->Array_0@) =~= Seq::new(
                    key_trees(keys@).len(),
                    |i: int| key_to_cbor(key_trees(keys@)[i]),
                ));
            }
            r
        },
        ExprValue::Mapping(items) => {
            let ghost all = entry_trees(items@);
            let mut out: Vec<(CborValue, CborValue)> = Vec::new();
            let mut i: usize = 0;
            assert(all.take(0) =~= Seq::empty());
            assert(crate::cbor::entry_trees(out@) =~= Seq::empty());
            while i < items.len()
                invariant
                    i <= items@.len(),
                    *value == ExprValue::Mapping(*items),
                    all == entry_trees(items@),
                    crate::cbor::entry_trees(out@) == entries_to_cbor(all.take(i as int)),
                decreases items@.len() - i,
            {
                assert(value->Mapping_0@[i as int] == items@[i as int]);
                assert(all.take(i + 1).drop_last() =~= all.take(i as int));
                let k = value_key_to_cbor(&items[i].0);
                let c = expr_value_to_cbor_value(&items[i].1);
                insert_cbor(&mut out, k, c);
                i += 1;
            }
            assert(all.take(i as int) =~= all);
            let r = CborValue::Mapping(out);
            proof {
                lemma_map_tree(r);
            }
            r
        },
        ExprValue::Record(items) => {
            let ghost all = field_trees(items@);
            if items.len() == 2 {
                if let Some(ExprValue::Text(tag)) = get_field(items, "$tag") {
                    let inner = match get_field(items, "$value") {
                        Some(v) => {
                            proof {
                                let k = choose|k: int|
                                    0 <= k < items@.len() && *v == (#[trigger] items@[k]).1;
                                assert(value->Record_0@[k].1 == *v);
                            }
                            expr_value_to_cbor_value(v)
                        },
                        None => CborValue::Null,
                    };
                    proof {
                        lemma_field_to_cbor(all, "$value"@);
                    }
                    let ghost t = inner@;
                    let mut out: Vec<(CborValue, CborValue)> = Vec::new();
                    out.push((CborValue::Text(tag.clone()), inner));
                    let r = CborValue::Mapping(out);
                    proof {
                        lemma_map_tree(r);
                        assert(r@->Mapping_0 =~= seq![(CborTree::Text(tag@), t)]);
                    }
                    return r;
                }
            }
            let mut out: Vec<(CborValue, CborValue)> = Vec::new();
            let mut i: usize = 0;
            assert(all.take(0) =~= Seq::empty());
            assert(crate::cbor::entry_trees(out@) =~= Seq::empty());
            while i < items.len()
                invariant
                    i <= items@.len(),
                    *value == ExprValue::Record(*items),
                    all == field_trees(items@),
                    crate::cbor::entry_trees(out@) == fields_to_cbor(all.take(i as int)),
                decreases items@.len() - i,
            {
                assert(value->Record_0@[i as int] == items@[i as int]);
                assert(all.take(i + 1).drop_last() =~= all.take(i as int));
                let k = CborValue::Text(items[i].0.clone());
                let c = expr_value_to_cbor_value(&items[i].1);
                insert_cbor(&mut out, k, c);
                i += 1;
            }
            assert(all.take(i as int) =~= all);
            let r = CborValue::Mapping(out);
            proof {
                lemma_map_tree(r);
            }
            r
        },
    }
}

/// Every value's CBOR can be written: its maps are in canonical order and it holds nothing that
/// has no encoding.
pub proof fn lemma_value_cbor_writable(v: ValueTree)
    ensures
        writable(value_to_cbor(v)),
    decreases v, 1int,
{
    match v {
        ValueTree::List(items) => {
            lemma_values_cbor_writable(items);
            let a = value_to_cbor(v)->Array_0;
            assert forall|i: int| 0 <= i < a.len() implies writable(#[trigger] a[i]) by {
                assert(a[i] == values_to_cbor(items)[i]);
            }
        },
        ValueTree::SetOf(keys) => {
            let a = value_to_cbor(v)->Array_0;
            assert forall|i: int| 0 <= i < a.len() implies writable(#[trigger] a[i]) by {
                assert(a[i] == key_to_cbor(keys[i]));
            }
        },
        ValueTree::Mapping(entries) => {
            lemma_entries_cbor_writable(entries);
        },
        ValueTree::Record(fields) => {
            match variant_tag(fields) {
                Some(tag) => {
                    lemma_field_cbor_writable(fields, "$value"@);
                    let m = value_to_cbor(v)->Mapping_0;
                    assert(plain_order(keys_of(m)));
                    assert forall|i: int| 0 <= i < m.len() implies writable((#[trigger] m[i]).0)
                        && writable(m[i].1) by {
                        assert(m[i] == m[0]);
                    }
                        },
                None => {
                    lemma_fields_cbor_writable(fields);
                        },
            }
        },
        _ => {},
    }
}

proof fn lemma_values_cbor_writable(items: Seq<ValueTree>)
    ensures
        forall|i: int|
            0 <= i < values_to_cbor(items).len() ==> writable(#[trigger] values_to_cbor(items)[i]),
    decreases items, 0int,
{
    if items.len() > 0 {
        let front = values_to_cbor(items.drop_last());
        let a = values_to_cbor(items);
        lemma_values_cbor_writable(items.drop_last());
        lemma_value_cbor_writable(items.last());
        assert(a == front.push(value_to_cbor(items.last())));
        assert forall|i: int| 0 <= i < a.len() implies writable(#[trigger] a[i]) by {
            if i < front.len() {
                assert(a[i] == front[i]);
            }
        }
    }
}

/// What a map needs to be writable.
spec fn entries_writable(m: Seq<(CborTree, CborTree)>) -> bool {
    &&& plain_order(keys_of(m))
    &&& forall|i: int| 0 <= i < m.len() ==> writable((#[trigger] m[i]).0) && writable(m[i].1)
}

proof fn lemma_insert_writable(m: Seq<(CborTree, CborTree)>, k: CborTree, c: CborTree)
    requires
        entries_writable(m),
        is_plain_key(k),
        writable(c),
    ensures
        entries_writable(cbor_insert(m, k, c)),
{
    lemma_cbor_insert_order(m, k, c);
    let t = cbor_insert(m, k, c);
    assert forall|i: int| 0 <= i < t.len() implies writable((#[trigger] t[i]).0) && writable(
        t[i].1,
    ) by {
        if t[i] != (k, c) {
            assert(m.contains(t[i]));
            let j = choose|j: int| 0 <= j < m.len() && m[j] == t[i];
            assert(writable(m[j].0));
        }
    }
}

proof fn lemma_entries_cbor_writable(items: Seq<(KeyTree, ValueTree)>)
    ensures
        entries_writable(entries_to_cbor(items)),
    decreases items, 0int,
{
    if items.len() > 0 {
        lemma_entries_cbor_writable(items.drop_last());
        lemma_value_cbor_writable(items.last().1);
        lemma_insert_writable(
            entries_to_cbor(items.drop_last()),
            key_to_cbor(items.last().0),
            value_to_cbor(items.last().1),
        );
    }
}

proof fn lemma_fields_cbor_writable(items: Seq<(Seq<char>, ValueTree)>)
    ensures
        entries_writable(fields_to_cbor(items)),
    decreases items, 0int,
{
    if items.len() > 0 {
        lemma_fields_cbor_writable(items.drop_last());
        lemma_value_cbor_writable(items.last().1);
        lemma_insert_writable(
            fields_to_cbor(items.drop_last()),
            CborTree::Text(items.last().0),
            value_to_cbor(items.last().1),
        );
    }
}

proof fn lemma_field_cbor_writable(fields: Seq<(Seq<char>, ValueTree)>, name: Seq<char>)
    ensures
        writable(field_to_cbor(fields, name)),
    decreases fields, 0int,
{
    if fields.len() > 0 {
        if fields[0].0 == name {
            lemma_value_cbor_writable(fields[0].1);
        } else {
            lemma_field_cbor_writable(fields.drop_first(), name);
        }
    }
}

/// The bytes of a value's CBOR.
pub fn encode_value(value: &ExprValue) -> (r: Result<Vec<u8>, String>)
    ensures
        match (r, cbor_printed(value_to_cbor(value@))) {
            (Ok(bytes), Ok(t)) => bytes@ == t,
            (Err(e), Err(t)) => e@ == t,
            _ => false,
        },
{
    let c = expr_value_to_cbor_value(value);
    proof {
        lemma_value_cbor_writable(value@);
    }
    encode_cbor(&c)
}

/// The truth value of a guard.
pub open spec fn truth_of(v: ValueTree) -> Result<bool, Seq<char>> {
    match v {
        ValueTree::Bool(b) => Ok(b),
        other => Err("guard expression must return bool, got "@ + value_kind(other)),
    }
}

/// The truth value of a guard; another kind of value is an error.
pub fn value_to_bool(value: &ExprValue) -> (r: Result<bool, KernelError>)
    ensures
        match truth_of(value@) {
            Ok(b) => r == Ok::<bool, KernelError>(b),
            Err(t) => r is Err && is_manifest_error(r->Err_0, t),
        },
{
    match value {
        ExprValue::Bool(b) => Ok(*b),
        other => Err(
            KernelError::Manifest(join2("guard expression must return bool, got ", other.kind())),
        ),
    }
}

/// The idempotency key that a value stands for, or what is wrong with it.
pub open spec fn idempotency_key(v: ValueTree) -> Result<Seq<u8>, Seq<char>> {
    match v {
        ValueTree::Hash(t) => hash_of_text(t),
        ValueTree::Text(t) => hash_of_text(t),
        ValueTree::Bytes(b) => if b.len() == 32 {
            Ok(b)
        } else {
            Err("expected 32 bytes, got "@ + decimal(b.len()))
        },
        other => Err("expected hash or bytes, got "@ + value_kind(other)),
    }
}

pub open spec fn hash_of_text(t: Seq<char>) -> Result<Seq<u8>, Seq<char>> {
    if is_hash_text(t) {
        Ok(hex_bytes(t.skip(7)))
    } else {
        Err(hash_fault(t))
    }
}

/// Reads an idempotency key from a value: a digest as text or as bytes.
pub fn idempotency_key_from_value(value: &ExprValue) -> (r: Result<[u8; 32], KernelError>)
    ensures
        match (r, idempotency_key(value@)) {
            (Ok(k), Ok(b)) => k@ == b,
            (Err(KernelError::IdempotencyKeyInvalid(m)), Err(t)) => m@ == t,
            _ => false,
        },
{
    match value {
        ExprValue::Hash(h) => match ContentHash::from_hex_str(h.as_str()) {
            Ok(d) => Ok(*d.as_bytes()),
            Err(e) => Err(KernelError::IdempotencyKeyInvalid(e.message())),
        },
        ExprValue::Text(t) => match ContentHash::from_hex_str(t.as_str()) {
            Ok(d) => Ok(*d.as_bytes()),
            Err(e) => Err(KernelError::IdempotencyKeyInvalid(e.message())),
        },
        ExprValue::Bytes(b) => match ContentHash::from_bytes(b.as_slice()) {
            Ok(d) => {
                proof {
                    ContentHash::lemma_len(d);
                }
                Ok(*d.as_bytes())
            },
            Err(n) => Err(
                KernelError::IdempotencyKeyInvalid(
                    join2("expected 32 bytes, got ", decimal_text(n as u64).as_str()),
                ),
            ),
        },
        other => Err(
            KernelError::IdempotencyKeyInvalid(join2("expected hash or bytes, got ", other.kind())),
        ),
    }
}

/// The number that a CBOR integer stands for.
pub open spec fn loose_integer(i: i128) -> Option<ValueTree> {
    if 0 <= i <= u64::MAX {
        Some(ValueTree::Nat(i as u64))
    } else if i64::MIN <= i < 0 {
        Some(ValueTree::Int(i as i64))
    } else {
        None
    }
}

pub open spec fn loose_key(k: CborTree) -> Option<KeyTree> {
    match k {
        CborTree::Text(t) => Some(KeyTree::Text(t)),
        CborTree::Integer(i) => if 0 <= i <= u64::MAX {
            Some(KeyTree::Nat(i as u64))
        } else if i64::MIN <= i < 0 {
            Some(KeyTree::Int(i as i64))
        } else {
            None
        },
        _ => None,
    }
}

pub open spec fn all_text_keys(entries: Seq<(CborTree, CborTree)>) -> bool {
    forall|i: int| 0 <= i < entries.len() ==> (#[trigger] entries[i]).0 is Text
}

/// The value of CBOR read without a schema: numbers by their sign, texts that are digests as
/// hashes, maps with text keys as records. Floats, tags and numbers beyond 64 bits have none.
pub open spec fn loose_value(c: CborTree) -> Option<ValueTree>
    decreases c,
{
    match c {
        CborTree::Null => Some(ValueTree::Null),
        CborTree::Bool(b) => Some(ValueTree::Bool(b)),
        CborTree::Integer(i) => loose_integer(i),
        CborTree::Bytes(b) => Some(ValueTree::Bytes(b)),
        CborTree::Text(t) => Some(
            if is_hash_text(t) {
                ValueTree::Hash(t)
            } else {
                ValueTree::Text(t)
            },
        ),
        CborTree::Array(items) => match loose_values(items) {
            Some(values) => Some(ValueTree::List(values)),
            None => None,
        },
        CborTree::Mapping(entries) => if all_text_keys(entries) {
            match loose_fields(entries) {
                Some(fields) => Some(ValueTree::Record(fields)),
                None => None,
            }
        } else {
            match loose_entries(entries) {
                Some(m) => Some(ValueTree::Mapping(m)),
                None => None,
            }
        },
        _ => None,
    }
}

pub open spec fn loose_values(items: Seq<CborTree>) -> Option<Seq<ValueTree>>
    decreases items,
{
    if items.len() == 0 {
        Some(Seq::empty())
    } else {
        match (loose_values(items.drop_last()), loose_value(items.last())) {
            (Some(front), Some(v)) => Some(front.push(v)),
            _ => None,
        }
    }
}

pub open spec fn loose_fields(entries: Seq<(CborTree, CborTree)>) -> Option<
    Seq<(Seq<char>, ValueTree)>,
>
    decreases entries,
{
    if entries.len() == 0 {
        Some(Seq::empty())
    } else {
        match (loose_fields(entries.drop_last()), loose_value(entries.last().1)) {
            (Some(front), Some(v)) => Some(record_insert(front, entries.last().0->Text_0, v)),
            _ => None,
        }
    }
}

pub open spec fn loose_entries(entries: Seq<(CborTree, CborTree)>) -> Option<
    Seq<(KeyTree, ValueTree)>,
>
    decreases entries,
{
    if entries.len() == 0 {
        Some(Seq::empty())
    } else {
        match (
            loose_entries(entries.drop_last()),
            loose_key(entries.last().0),
            loose_value(entries.last().1),
        ) {
            (Some(front), Some(k), Some(v)) => Some(map_insert(front, k, v)),
            _ => None,
        }
    }
}

proof fn lemma_loose_values_none(items: Seq<CborTree>, n: int)
    requires
        0 <= n <= items.len(),
        loose_values(items.take(n)) is None,
    ensures
        loose_values(items) is None,
    decreases items.len(),
{
    if n < items.len() {
        assert(items.drop_last().take(n) =~= items.take(n));
        lemma_loose_values_none(items.drop_last(), n);
    } else {
        assert(items.take(n) =~= items);
    }
}

proof fn lemma_loose_fields_none(items: Seq<(CborTree, CborTree)>, n: int)
    requires
        0 <= n <= items.len(),
        loose_fields(items.take(n)) is None,
    ensures
        loose_fields(items) is None,
    decreases items.len(),
{
    if n < items.len() {
        assert(items.drop_last().take(n) =~= items.take(n));
        lemma_loose_fields_none(items.drop_last(), n);
    } else {
        assert(items.take(n) =~= items);
    }
}

proof fn lemma_loose_entries_none(items: Seq<(CborTree, CborTree)>, n: int)
    requires
        0 <= n <= items.len(),
        loose_entries(items.take(n)) is None,
    ensures
        loose_entries(items) is None,
    decreases items.len(),
{
    if n < items.len() {
        assert(items.drop_last().take(n) =~= items.take(n));
        lemma_loose_entries_none(items.drop_last(), n);
    } else {
        assert(items.take(n) =~= items);
    }
}

fn cbor_key_to_value_key(key: &CborValue) -> (r: Option<ValueKey>)
    ensures
        match (r, loose_key(key@)) {
            (Some(k), Some(t)) => k@ == t,
            (None, None) => true,
            _ => false,
        },
{
    match key {
        CborValue::Text(t) => Some(ValueKey::Text(t.clone())),
        CborValue::Integer(i) => {
            let n: i128 = *i;
            if 0 <= n && n <= u64::MAX as i128 {
                Some(ValueKey::Nat(n as u64))
            } else if i64::MIN as i128 <= n && n < 0 {
                Some(ValueKey::Int(n as i64))
            } else {
                None
            }
        },
        _ => None,
    }
}

/// The value of CBOR read without a schema.
pub fn cbor_value_to_expr_value_loose(value: &CborValue) -> (r: Option<ExprValue>)
    ensures
        match (r, loose_value(value@)) {
            (Some(v), Some(t)) => v@ == t,
            (None, None) => true,
            _ => false,
        },
    decreases value,
{
    broadcast use lemma_value_tree;

    match value {
        CborValue::Null => Some(ExprValue::Null),
        CborValue::Bool(b) => Some(ExprValue::Bool(*b)),
        CborValue::Integer(i) => {
            let n: i128 = *i;
            if 0 <= n && n <= u64::MAX as i128 {
                Some(ExprValue::Nat(n as u64))
            } else if i64::MIN as i128 <= n && n < 0 {
                Some(ExprValue::Int(n as i64))
            } else {
                None
            }
        },
        CborValue::Bytes(b) => Some(ExprValue::Bytes(clone_bytes(b))),
        CborValue::Text(t) => match HashRef::new(t.clone()) {
            Ok(h) => Some(ExprValue::Hash(h)),
            Err(_) => Some(ExprValue::Text(t.clone())),
        },
        CborValue::Array(items) => {
            proof {
                lemma_array_tree(*value);
            }
            let ghost all = trees(items@);
            let mut out: Vec<ExprValue> = Vec::new();
            let mut i: usize = 0;
            assert(all.take(0) =~= Seq::empty());
            assert(value_trees(out@) =~= Seq::empty());
            while i < items.len()
                invariant
                    i <= items@.len(),
                    *value == CborValue::Array(*items),
                    value@ == CborTree::Array(all),
                    all == trees(items@),
                    loose_values(all.take(i as int)) == Some(value_trees(out@)),
                decreases items@.len() - i,
            {
                assert(value->Array_0@[i as int] == items@[i as int]);
                assert(all.take(i + 1).drop_last() =~= all.take(i as int));
                assert(all.take(i + 1).last() == items@[i as int]@);
                match cbor_value_to_expr_value_loose(&items[i]) {
                    None => {
                        proof {
                            lemma_loose_values_none(all, i + 1);
                        }
                        return None;
                    },
                    Some(v) => {
                        let ghost before = value_trees(out@);
                        out.push(v);
                        assert(value_trees(out@) =~= before.push(v@));
                    },
                }
                i += 1;
            }
            assert(all.take(i as int) =~= all);
            Some(ExprValue::List(out))
        },
        CborValue::Mapping(items) => {
            proof {
                lemma_map_tree(*value);
            }
            let ghost all = crate::cbor::entry_trees(items@);
            let mut text: bool = true;
            let mut i: usize = 0;
            while i < items.len()
                invariant
                    i <= items@.len(),
                    all == crate::cbor::entry_trees(items@),
                    text <==> (forall|k: int| 0 <= k < i ==> (#[trigger] all[k]).0 is Text),
                decreases items@.len() - i,
            {
                assert(all[i as int].0 == items@[i as int].0@);
                if !matches!(&items[i].0, CborValue::Text(_)) {
                    text = false;
                }
                i += 1;
            }
            assert(text == all_text_keys(all));
            assert(all.take(0) =~= Seq::empty());
            if text {
                let mut out: Vec<(String, ExprValue)> = Vec::new();
                assert(field_trees(out@) =~= Seq::empty());
                let mut i: usize = 0;
                while i < items.len()
                    invariant
                        i <= items@.len(),
                        *value == CborValue::Mapping(*items),
                        value@ == CborTree::Mapping(all),
                        all == crate::cbor::entry_trees(items@),
                        all_text_keys(all),
                        loose_fields(all.take(i as int)) == Some(field_trees(out@)),
                    decreases items@.len() - i,
                {
                    assert(value->Mapping_0@[i as int] == items@[i as int]);
                    assert(all.take(i + 1).drop_last() =~= all.take(i as int));
                    assert(all.take(i + 1).last() == (items@[i as int].0@, items@[i as int].1@));
                    assert(all[i as int].0 is Text);
                    match cbor_value_to_expr_value_loose(&items[i].1) {
                        None => {
                            proof {
                                lemma_loose_fields_none(all, i + 1);
                            }
                            return None;
                        },
                        Some(v) => {
                            if let CborValue::Text(name) = &items[i].0 {
                                insert_field(&mut out, name.clone(), v);
                            }
                        },
                    }
                    i += 1;
                }
                assert(all.take(i as int) =~= all);
                Some(ExprValue::Record(out))
            } else {
                let mut out: Vec<(ValueKey, ExprValue)> = Vec::new();
                assert(entry_trees(out@) =~= Seq::empty());
                let mut i: usize = 0;
                while i < items.len()
                    invariant
                        i <= items@.len(),
                        *value == CborValue::Mapping(*items),
                        value@ == CborTree::Mapping(all),
                        all == crate::cbor::entry_trees(items@),
                        !all_text_keys(all),
                        loose_entries(all.take(i as int)) == Some(entry_trees(out@)),
                    decreases items@.len() - i,
                {
                    assert(value->Mapping_0@[i as int] == items@[i as int]);
                    assert(all.take(i + 1).drop_last() =~= all.take(i as int));
                    assert(all.take(i + 1).last() == (items@[i as int].0@, items@[i as int].1@));
                    let key = match cbor_key_to_value_key(&items[i].0) {
                        None => {
                            proof {
                                lemma_loose_entries_none(all, i + 1);
                            }
                            return None;
                        },
                        Some(k) => k,
                    };
                    match cbor_value_to_expr_value_loose(&items[i].1) {
                        None => {
                            proof {
                                lemma_loose_entries_none(all, i + 1);
                            }
                            return None;
                        },
                        Some(v) => {
                            insert_entry(&mut out, key, v);
                        },
                    }
                    i += 1;
                }
                assert(all.take(i as int) =~= all);
                Some(ExprValue::Mapping(out))
            }
        },
        _ => None,
    }
}

/// The value of a receipt's payload: what it says as a value, else what its CBOR says, else its
/// bytes.
pub open spec fn receipt_value(typed: Option<ValueTree>, payload: Seq<u8>) -> ValueTree {
    match typed {
        Some(v) => v,
        None => match cbor_parsed(payload) {
            Ok(c) => match loose_value(c) {
                Some(v) => v,
                None => ValueTree::Bytes(payload),
            },
            Err(_) => ValueTree::Bytes(payload),
        },
    }
}

/// Reads a receipt's payload. `typed` is the payload read as a value, where it is the encoding of
/// one.
pub fn decode_receipt_value(typed: Option<ExprValue>, payload: &Vec<u8>) -> (r: ExprValue)
    ensures
        r@ == receipt_value(
            match typed {
                Some(v) => Some(v@),
                None => None,
            },
            payload@,
        ),
{
    if let Some(v) = typed {
        return v;
    }
    if let Ok(c) = decode_cbor(payload.as_slice()) {
        if let Some(v) = cbor_value_to_expr_value_loose(&c) {
            return v;
        }
    }
    ExprValue::Bytes(clone_bytes(payload))
}

} // verus!
