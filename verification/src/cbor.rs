//! CBOR values and their encoding.
//!
//! The library reads and builds CBOR through [`CborValue`], a plain tree. `serde_cbor` turns bytes
//! into its own value type and back; this module carries values across and names what the two
//! directions compute.
use vstd::prelude::*;
use vstd::string::*;
use vstd::utf8::encode_utf8;

use crate::text::{lex_lt, str_eq};

verus! {

/// A CBOR value. A map lists its entries in the order in which they are encoded. A float is held
/// by its bits.
#[derive(Debug)]
pub enum CborValue {
    Null,
    Bool(bool),
    Integer(i128),
    Float(u64),
    Bytes(Vec<u8>),
    Text(String),
    Array(Vec<CborValue>),
    Mapping(Vec<(CborValue, CborValue)>),
    Tag(u64, Box<CborValue>),
    Hidden,
}

/// The model of a CBOR value.
pub enum CborTree {
    Null,
    Bool(bool),
    Integer(i128),
    Float(u64),
    Bytes(Seq<u8>),
    Text(Seq<char>),
    Array(Seq<CborTree>),
    Mapping(Seq<(CborTree, CborTree)>),
    Tag(u64, Box<CborTree>),
    Hidden,
}

impl CborValue {
    pub open spec fn tree(self) -> CborTree
        decreases self,
    {
        match self {
            CborValue::Null => CborTree::Null,
            CborValue::Bool(b) => CborTree::Bool(b),
            CborValue::Integer(i) => CborTree::Integer(i),
            CborValue::Float(f) => CborTree::Float(f),
            CborValue::Bytes(b) => CborTree::Bytes(b@),
            CborValue::Text(t) => CborTree::Text(t@),
            CborValue::Array(items) => CborTree::Array(
                Seq::new(
                    items@.len(),
                    |i: int|
                        if 0 <= i < items@.len() {
                            items@[i].tree()
                        } else {
                            CborTree::Null
                        },
                ),
            ),
            CborValue::Mapping(entries) => CborTree::Mapping(
                Seq::new(
                    entries@.len(),
                    |i: int|
                        if 0 <= i < entries@.len() {
                            (entries@[i].0.tree(), entries@[i].1.tree())
                        } else {
                            (CborTree::Null, CborTree::Null)
                        },
                ),
            ),
            CborValue::Tag(n, inner) => CborTree::Tag(n, Box::new((*inner).tree())),
            CborValue::Hidden => CborTree::Hidden,
        }
    }
}

impl View for CborValue {
    type V = CborTree;

    open spec fn view(&self) -> CborTree {
        self.tree()
    }
}

/// The models of a list of values.
pub open spec fn trees(items: Seq<CborValue>) -> Seq<CborTree> {
    Seq::new(items.len(), |i: int| items[i]@)
}

/// The models of the entries of a map.
pub open spec fn entry_trees(entries: Seq<(CborValue, CborValue)>) -> Seq<(CborTree, CborTree)> {
    Seq::new(entries.len(), |i: int| (entries[i].0@, entries[i].1@))
}

pub proof fn lemma_array_tree(v: CborValue)
    requires
        v is Array,
    ensures
        v@ == CborTree::Array(trees(v->Array_0@)),
{
    assert(v@->Array_0 =~= trees(v->Array_0@));
}

pub proof fn lemma_map_tree(v: CborValue)
    requires
        v is Mapping,
    ensures
        v@ == CborTree::Mapping(entry_trees(v->Mapping_0@)),
{
    assert(v@->Mapping_0 =~= entry_trees(v->Mapping_0@));
}

/// A value of `serde_cbor`.
#[verifier::external_type_specification]
#[verifier::external_body]
pub struct ExOuterValue(serde_cbor::Value);

/// What a value of `serde_cbor` holds.
pub uninterp spec fn outer_tree(v: serde_cbor::Value) -> CborTree;

/// Whether the keys stand in the order in which `serde_cbor` keeps the keys of a map.
pub uninterp spec fn outer_order(keys: Seq<CborTree>) -> bool;

/// What `serde_cbor::from_slice` reads from `bytes` as a value: the value, or the error's text.
pub uninterp spec fn cbor_parsed(bytes: Seq<u8>) -> Result<CborTree, Seq<char>>;

/// What `serde_cbor::to_vec` writes for a value: the bytes, or the error's text.
pub uninterp spec fn cbor_printed(tree: CborTree) -> Result<Seq<u8>, Seq<char>>;

/// One level of a value of `serde_cbor`.
pub enum OuterParts<'a> {
    Null,
    Bool(bool),
    Integer(i128),
    Float(u64),
    Bytes(&'a Vec<u8>),
    Text(&'a String),
    Array(&'a Vec<serde_cbor::Value>),
    Mapping(Vec<(&'a serde_cbor::Value, &'a serde_cbor::Value)>),
    Tag(u64, &'a serde_cbor::Value),
    Hidden,
}

/// The model of one level, its parts taken by theirs.
pub open spec fn parts_tree(p: OuterParts) -> CborTree {
    match p {
        OuterParts::Null => CborTree::Null,
        OuterParts::Bool(b) => CborTree::Bool(b),
        OuterParts::Integer(i) => CborTree::Integer(i),
        OuterParts::Float(f) => CborTree::Float(f),
        OuterParts::Bytes(b) => CborTree::Bytes(b@),
        OuterParts::Text(t) => CborTree::Text(t@),
        OuterParts::Array(items) => CborTree::Array(
            Seq::new(items@.len(), |i: int| outer_tree(items@[i])),
        ),
        OuterParts::Mapping(entries) => CborTree::Mapping(
            Seq::new(
                entries@.len(),
                |i: int| (outer_tree(*entries@[i].0), outer_tree(*entries@[i].1)),
            ),
        ),
        OuterParts::Tag(n, inner) => CborTree::Tag(n, Box::new(outer_tree(*inner))),
        OuterParts::Hidden => CborTree::Hidden,
    }
}

/// The keys of a list of entries.
pub open spec fn keys_of(entries: Seq<(CborTree, CborTree)>) -> Seq<CborTree> {
    Seq::new(entries.len(), |i: int| entries[i].0)
}

/// Tells the variants of `serde_cbor::Value` apart. The parts are those of the value, and a map
/// hands its entries out in the order of its keys.
#[verifier::external_body]
fn open_outer(v: &serde_cbor::Value) -> (r: OuterParts<'_>)
    ensures
        parts_tree(r) == outer_tree(*v),
        parts_tree(r) matches CborTree::Mapping(entries) ==> outer_order(keys_of(entries)),
{
    match v {
        serde_cbor::Value::Null => OuterParts::Null,
        serde_cbor::Value::Bool(b) => OuterParts::Bool(*b),
        serde_cbor::Value::Integer(i) => OuterParts::Integer(*i),
        serde_cbor::Value::Float(f) => OuterParts::Float(f.to_bits()),
        serde_cbor::Value::Bytes(b) => OuterParts::Bytes(b),
        serde_cbor::Value::Text(t) => OuterParts::Text(t),
        serde_cbor::Value::Array(items) => OuterParts::Array(items),
        serde_cbor::Value::Map(m) => OuterParts::Mapping(m.iter().collect()),
        serde_cbor::Value::Tag(n, inner) => OuterParts::Tag(*n, inner),
        _ => OuterParts::Hidden,
    }
}

/// Whether no part of a value is hidden.
pub open spec fn visible(t: CborTree) -> bool
    decreases t,
{
    match t {
        CborTree::Array(items) => forall|i: int|
            0 <= i < items.len() ==> visible(#[trigger] items[i]),
        CborTree::Mapping(entries) => forall|i: int|
            0 <= i < entries.len() ==> visible((#[trigger] entries[i]).0) && visible(entries[i].1),
        CborTree::Tag(_, inner) => visible(*inner),
        CborTree::Hidden => false,
        _ => true,
    }
}

/// `serde_cbor::from_slice` at the type `serde_cbor::Value`. It builds no hidden value.
#[verifier::external_body]
fn parse_outer(bytes: &[u8]) -> (r: Result<serde_cbor::Value, String>)
    ensures
        match r {
            Ok(v) => cbor_parsed(bytes@) == Ok::<CborTree, Seq<char>>(outer_tree(v)) && visible(
                outer_tree(v),
            ),
            Err(e) => cbor_parsed(bytes@) == Err::<CborTree, Seq<char>>(e@),
        },
{
    serde_cbor::from_slice(bytes).map_err(|e| e.to_string())
}

/// Carries a value of `serde_cbor` over.
fn from_outer(v: &serde_cbor::Value) -> (r: CborValue)
    ensures
        r@ == outer_tree(*v),
        visible(r@) ==> writable(r@),
    decreases outer_tree(*v),
{
    match open_outer(v) {
        OuterParts::Null => CborValue::Null,
        OuterParts::Bool(b) => CborValue::Bool(b),
        OuterParts::Integer(i) => CborValue::Integer(i),
        OuterParts::Float(f) => CborValue::Float(f),
        OuterParts::Bytes(b) => CborValue::Bytes(clone_bytes(b)),
        OuterParts::Text(t) => CborValue::Text(t.clone()),
        OuterParts::Array(items) => {
            let mut out: Vec<CborValue> = Vec::new();
            let mut i: usize = 0;
            while i < items.len()
                invariant
                    i == out@.len(),
                    i <= items@.len(),
                    outer_tree(*v) == CborTree::Array(
                        Seq::new(items@.len(), |k: int| outer_tree(items@[k])),
                    ),
                    forall|k: int| 0 <= k < i ==> (#[trigger] out@[k])@ == outer_tree(items@[k]),
                    forall|k: int|
                        0 <= k < i ==> visible((#[trigger] out@[k])@) ==> writable(out@[k]@),
                decreases items@.len() - i,
            {
                assert(outer_tree(*v)->Array_0[i as int] == outer_tree(items@[i as int]));
                out.push(from_outer(&items[i]));
                i += 1;
            }
            let r = CborValue::Array(out);
            proof {
                lemma_array_tree(r);
                assert(r@->Array_0 =~= outer_tree(*v)->Array_0);
                if visible(r@) {
                    let parts = r@->Array_0;
                    assert forall|k: int| 0 <= k < parts.len() implies writable(
                        #[trigger] parts[k],
                    ) by {
                        assert(parts[k] == out@[k]@);
                    }
                }
            }
            r
        },
        OuterParts::Mapping(entries) => {
            let mut out: Vec<(CborValue, CborValue)> = Vec::new();
            let mut i: usize = 0;
            while i < entries.len()
                invariant
                    i == out@.len(),
                    i <= entries@.len(),
                    outer_tree(*v) == CborTree::Mapping(
                        Seq::new(
                            entries@.len(),
                            |k: int| (outer_tree(*entries@[k].0), outer_tree(*entries@[k].1)),
                        ),
                    ),
                    forall|k: int|
                        0 <= k < i ==> (#[trigger] out@[k]).0@ == outer_tree(*entries@[k].0)
                            && out@[k].1@ == outer_tree(*entries@[k].1),
                    forall|k: int|
                        0 <= k < i ==> (visible((#[trigger] out@[k]).0@) ==> writable(out@[k].0@))
                            && (visible(out@[k].1@) ==> writable(out@[k].1@)),
                decreases entries@.len() - i,
            {
                let ghost here = outer_tree(*v)->Mapping_0[i as int];
                assert(here.0 == outer_tree(*entries@[i as int].0));
                assert(here.1 == outer_tree(*entries@[i as int].1));
                let key = from_outer(entries[i].0);
                let value = from_outer(entries[i].1);
                out.push((key, value));
                i += 1;
            }
            let r = CborValue::Mapping(out);
            proof {
                lemma_map_tree(r);
                assert(r@->Mapping_0 =~= outer_tree(*v)->Mapping_0);
                if visible(r@) {
                    let parts = r@->Mapping_0;
                    assert forall|k: int| 0 <= k < parts.len() implies writable(
                        (#[trigger] parts[k]).0,
                    ) && writable(parts[k].1) by {
                        assert(parts[k].0 == out@[k].0@ && parts[k].1 == out@[k].1@);
                    }
                }
            }
            r
        },
        OuterParts::Tag(n, inner) => {
            assert(*(outer_tree(*v)->Tag_1) == outer_tree(*inner));
            CborValue::Tag(n, Box::new(from_outer(inner)))
        },
        OuterParts::Hidden => CborValue::Hidden,
    }
}

/// Whether a key is an integer that CBOR can hold or a text.
pub open spec fn is_plain_key(k: CborTree) -> bool {
    match k {
        CborTree::Integer(i) => -0x1_0000_0000_0000_0000 <= i < 0x1_0000_0000_0000_0000,
        CborTree::Text(_) => true,
        _ => false,
    }
}

/// The canonical order of plain keys: integers before texts, natural numbers before negative
/// ones, integers by magnitude, texts by the length of their encoding and then by name order.
pub open spec fn key_lt(a: CborTree, b: CborTree) -> bool {
    match (a, b) {
        (CborTree::Integer(x), CborTree::Integer(y)) => if x >= 0 && y >= 0 {
            x < y
        } else if x < 0 && y < 0 {
            y < x
        } else {
            x >= 0
        },
        (CborTree::Integer(_), CborTree::Text(_)) => true,
        (CborTree::Text(x), CborTree::Text(y)) => {
            ||| encode_utf8(x).len() < encode_utf8(y).len()
            ||| encode_utf8(x).len() == encode_utf8(y).len() && lex_lt(x, y)
        },
        _ => false,
    }
}

/// Plain keys in strictly ascending canonical order.
pub open spec fn plain_order(keys: Seq<CborTree>) -> bool {
    &&& forall|i: int| 0 <= i < keys.len() ==> is_plain_key(#[trigger] keys[i])
    &&& forall|i: int, j: int|
        0 <= i < j < keys.len() ==> key_lt(#[trigger] keys[i], #[trigger] keys[j])
}

/// Whether a value can be written: its maps are in order, and it holds no hidden value.
pub open spec fn writable(t: CborTree) -> bool
    decreases t,
{
    match t {
        CborTree::Array(items) => forall|i: int|
            0 <= i < items.len() ==> writable(#[trigger] items[i]),
        CborTree::Mapping(entries) => {
            &&& outer_order(keys_of(entries)) || plain_order(keys_of(entries))
            &&& forall|i: int|
                0 <= i < entries.len() ==> writable((#[trigger] entries[i]).0) && writable(
                    entries[i].1,
                )
        },
        CborTree::Tag(_, inner) => writable(*inner),
        CborTree::Hidden => false,
        _ => true,
    }
}

/// Whether reading gives back what writing such a value writes: it is made of numbers that CBOR can
/// hold, bytes, texts, and at most `depth` levels of lists and of maps with plain keys in order.
pub open spec fn round_trips(t: CborTree, depth: nat) -> bool
    decreases t,
{
    match t {
        CborTree::Null => true,
        CborTree::Bool(_) => true,
        CborTree::Integer(i) => -0x1_0000_0000_0000_0000 <= i < 0x1_0000_0000_0000_0000,
        CborTree::Bytes(_) => true,
        CborTree::Text(_) => true,
        CborTree::Array(items) => depth > 0 && forall|i: int|
            0 <= i < items.len() ==> round_trips(#[trigger] items[i], (depth - 1) as nat),
        CborTree::Mapping(entries) => {
            &&& depth > 0
            &&& plain_order(keys_of(entries))
            &&& forall|i: int|
                0 <= i < entries.len() ==> round_trips(
                    (#[trigger] entries[i]).1,
                    (depth - 1) as nat,
                )
        },
        _ => false,
    }
}

/// The number of levels for which `round_trips` is relied on.
pub open spec fn safe_depth() -> nat {
    100
}

/// One level of a value to be built.
pub enum NewParts {
    Null,
    Bool(bool),
    Integer(i128),
    Bytes(Vec<u8>),
    Text(String),
    Array(Vec<serde_cbor::Value>),
    Mapping(Vec<(serde_cbor::Value, serde_cbor::Value)>),
    Tag(u64, serde_cbor::Value),
}

pub open spec fn new_tree(p: NewParts) -> CborTree {
    match p {
        NewParts::Null => CborTree::Null,
        NewParts::Bool(b) => CborTree::Bool(b),
        NewParts::Integer(i) => CborTree::Integer(i),
        NewParts::Bytes(b) => CborTree::Bytes(b@),
        NewParts::Text(t) => CborTree::Text(t@),
        NewParts::Array(items) => CborTree::Array(
            Seq::new(items@.len(), |i: int| outer_tree(items@[i])),
        ),
        NewParts::Mapping(entries) => CborTree::Mapping(
            Seq::new(
                entries@.len(),
                |i: int| (outer_tree(entries@[i].0), outer_tree(entries@[i].1)),
            ),
        ),
        NewParts::Tag(n, inner) => CborTree::Tag(n, Box::new(outer_tree(inner))),
    }
}

/// What a map of `serde_cbor` keeps of a list of entries, in its order: of several entries with one
/// key the last.
pub uninterp spec fn outer_sorted(entries: Seq<(CborTree, CborTree)>) -> Seq<(CborTree, CborTree)>;

/// Whether a value can be compared with others: no part is hidden, and its integers are those that
/// CBOR can hold.
pub open spec fn comparable(t: CborTree) -> bool
    decreases t,
{
    match t {
        CborTree::Integer(i) => -0x1_0000_0000_0000_0000 <= i < 0x1_0000_0000_0000_0000,
        CborTree::Array(items) => forall|i: int|
            0 <= i < items.len() ==> comparable(#[trigger] items[i]),
        CborTree::Mapping(entries) => forall|i: int|
            0 <= i < entries.len() ==> comparable((#[trigger] entries[i]).0) && comparable(
                entries[i].1,
            ),
        CborTree::Tag(_, inner) => comparable(*inner),
        CborTree::Hidden => false,
        _ => true,
    }
}

/// Whether the keys of entries stand in the order of a map.
pub open spec fn in_order(entries: Seq<(CborTree, CborTree)>) -> bool {
    outer_order(keys_of(entries)) || plain_order(keys_of(entries))
}

/// Whether every key of `b` is a key of `a`, and every value of `b` a value of `a`.
pub open spec fn drawn_from(b: Seq<(CborTree, CborTree)>, a: Seq<(CborTree, CborTree)>) -> bool {
    &&& forall|i: int|
        0 <= i < b.len() ==> exists|j: int|
            0 <= j < a.len() && (#[trigger] a[j]).0 == (#[trigger] b[i]).0
    &&& forall|i: int|
        0 <= i < b.len() ==> exists|j: int|
            0 <= j < a.len() && (#[trigger] a[j]).1 == (#[trigger] b[i]).1
}

/// Builds a `serde_cbor::Value`. Its map sorts its entries, so entries that stand in its order
/// keep their places. Keys are compared by `serde_cbor::Value::cmp`, which does not return on a
/// hidden part or on an integer that CBOR cannot hold.
#[verifier::external_body]
pub(crate) fn close_outer(p: NewParts) -> (r: serde_cbor::Value)
    requires
        new_tree(p) matches CborTree::Mapping(entries) ==> in_order(entries) || forall|i: int|
            0 <= i < entries.len() ==> comparable((#[trigger] entries[i]).0),
    ensures
        match new_tree(p) {
            CborTree::Mapping(entries) => {
                &&& outer_tree(r) == CborTree::Mapping(outer_sorted(entries))
                &&& outer_order(keys_of(outer_sorted(entries)))
                &&& in_order(entries) ==> outer_sorted(entries) == entries
                &&& drawn_from(outer_sorted(entries), entries)
            },
            t => outer_tree(r) == t,
        },
{
    match p {
        NewParts::Null => serde_cbor::Value::Null,
        NewParts::Bool(b) => serde_cbor::Value::Bool(b),
        NewParts::Integer(i) => serde_cbor::Value::Integer(i),
        NewParts::Bytes(b) => serde_cbor::Value::Bytes(b),
        NewParts::Text(t) => serde_cbor::Value::Text(t),
        NewParts::Array(items) => serde_cbor::Value::Array(items),
        NewParts::Mapping(entries) => serde_cbor::Value::Map(entries.into_iter().collect()),
        NewParts::Tag(n, inner) => serde_cbor::Value::Tag(n, Box::new(inner)),
    }
}

/// `serde_cbor::from_slice` on the nine bytes that stand for a double: the first says so, the
/// others are the number's bits. It reads the number with those bits.
#[verifier::external_body]
pub(crate) fn float_outer(bits: u64) -> (r: serde_cbor::Value)
    ensures
        outer_tree(r) == CborTree::Float(bits),
{
    let b = bits.to_be_bytes();
    let coded = [0xfb, b[0], b[1], b[2], b[3], b[4], b[5], b[6], b[7]];
    serde_cbor::from_slice(&coded).unwrap_or(serde_cbor::Value::Null)
}

/// `serde_cbor::to_vec` at the type `serde_cbor::Value`; it does not return on a hidden value. On a
/// value that `round_trips` it succeeds, and `serde_cbor::from_slice` reads the value back.
#[verifier::external_body]
fn print_outer(v: &serde_cbor::Value) -> (r: Result<Vec<u8>, String>)
    requires
        writable(outer_tree(*v)),
    ensures
        match r {
            Ok(bytes) => cbor_printed(outer_tree(*v)) == Ok::<Seq<u8>, Seq<char>>(bytes@),
            Err(e) => cbor_printed(outer_tree(*v)) == Err::<Seq<u8>, Seq<char>>(e@),
        },
        round_trips(outer_tree(*v), safe_depth()) ==> match r {
            Ok(bytes) => cbor_parsed(bytes@) == Ok::<CborTree, Seq<char>>(outer_tree(*v)),
            Err(_) => false,
        },
{
    serde_cbor::to_vec(v).map_err(|e| e.to_string())
}

/// The JSON text of a value, where it has a JSON form: what `serde_json::to_value` makes of it,
/// without white space.
pub uninterp spec fn json_printed(tree: CborTree) -> Option<Seq<char>>;

/// `serde_json::to_value` on a value of `serde_cbor`, and the text of what it makes. It fails on a
/// value without a JSON form, and does not return on a hidden value.
#[verifier::external_body]
fn outer_json(v: &serde_cbor::Value) -> (r: Option<String>)
    requires
        visible(outer_tree(*v)),
    ensures
        match r {
            Some(s) => json_printed(outer_tree(*v)) == Some(s@),
            None => json_printed(outer_tree(*v)) is None,
        },
{
    serde_json::to_value(v).ok().map(|j| j.to_string())
}

/// The JSON text of what `bytes` hold, where they can be read and it has a JSON form.
pub open spec fn json_of(bytes: Seq<u8>) -> Option<Seq<char>> {
    match cbor_parsed(bytes) {
        Ok(t) => json_printed(t),
        Err(_) => None,
    }
}

/// The JSON text of encoded params.
pub fn params_to_json(params_cbor: &[u8]) -> (r: Option<String>)
    ensures
        match r {
            Some(s) => json_of(params_cbor@) == Some(s@),
            None => json_of(params_cbor@) is None,
        },
{
    match parse_outer(params_cbor) {
        Ok(v) => outer_json(&v),
        Err(_) => None,
    }
}

/// Carries a value over to `serde_cbor`.
fn to_outer(v: &CborValue) -> (r: serde_cbor::Value)
    requires
        writable(v@),
    ensures
        outer_tree(r) == v@,
    decreases v,
{
    match v {
        CborValue::Null => close_outer(NewParts::Null),
        CborValue::Bool(b) => close_outer(NewParts::Bool(*b)),
        CborValue::Integer(i) => close_outer(NewParts::Integer(*i)),
        CborValue::Float(f) => float_outer(*f),
        CborValue::Bytes(b) => close_outer(NewParts::Bytes(clone_bytes(b))),
        CborValue::Text(t) => close_outer(NewParts::Text(t.clone())),
        CborValue::Array(items) => {
            let mut out: Vec<serde_cbor::Value> = Vec::new();
            let mut i: usize = 0;
            proof {
                lemma_array_tree(*v);
            }
            while i < items.len()
                invariant
                    i == out@.len(),
                    i <= items@.len(),
                    *v == CborValue::Array(*items),
                    v@ == CborTree::Array(trees(items@)),
                    writable(v@),
                    forall|k: int| 0 <= k < i ==> outer_tree(#[trigger] out@[k]) == items@[k]@,
                decreases items@.len() - i,
            {
                assert(trees(items@)[i as int] == items@[i as int]@);
                assert(v@->Array_0[i as int] == items@[i as int]@);
                out.push(to_outer(&items[i]));
                i += 1;
            }
            assert(Seq::new(out@.len(), |k: int| outer_tree(out@[k])) =~= trees(items@));
            close_outer(NewParts::Array(out))
        },
        CborValue::Mapping(entries) => {
            let mut out: Vec<(serde_cbor::Value, serde_cbor::Value)> = Vec::new();
            let mut i: usize = 0;
            proof {
                lemma_map_tree(*v);
            }
            while i < entries.len()
                invariant
                    i == out@.len(),
                    i <= entries@.len(),
                    *v == CborValue::Mapping(*entries),
                    v@ == CborTree::Mapping(entry_trees(entries@)),
                    writable(v@),
                    forall|k: int|
                        0 <= k < i ==> outer_tree((#[trigger] out@[k]).0) == entries@[k].0@
                            && outer_tree(out@[k].1) == entries@[k].1@,
                decreases entries@.len() - i,
            {
                assert(entry_trees(entries@)[i as int].0 == entries@[i as int].0@);
                assert(writable(entry_trees(entries@)[i as int].0));
                let key = to_outer(&entries[i].0);
                let value = to_outer(&entries[i].1);
                out.push((key, value));
                i += 1;
            }
            assert(Seq::new(out@.len(), |k: int| (outer_tree(out@[k].0), outer_tree(out@[k].1)))
                =~= entry_trees(entries@));
            close_outer(NewParts::Mapping(out))
        },
        CborValue::Tag(n, inner) => close_outer(NewParts::Tag(*n, to_outer(inner))),
        CborValue::Hidden => close_outer(NewParts::Null),
    }
}

/// Writes a value.
pub fn encode_cbor(v: &CborValue) -> (r: Result<Vec<u8>, String>)
    requires
        writable(v@),
    ensures
        match r {
            Ok(bytes) => cbor_printed(v@) == Ok::<Seq<u8>, Seq<char>>(bytes@),
            Err(e) => cbor_printed(v@) == Err::<Seq<u8>, Seq<char>>(e@),
        },
        round_trips(v@, safe_depth()) ==> match r {
            Ok(bytes) => cbor_parsed(bytes@) == Ok::<CborTree, Seq<char>>(v@),
            Err(_) => false,
        },
{
    let outer = to_outer(v);
    print_outer(&outer)
}

/// The entries of the map that a list of entries makes.
pub fn sort_entries(entries: &Vec<(CborValue, CborValue)>) -> (r: Vec<(CborValue, CborValue)>)
    requires
        forall|i: int|
            0 <= i < entries@.len() ==> writable((#[trigger] entries@[i]).0@) && comparable(
                entries@[i].0@,
            ) && writable(entries@[i].1@),
    ensures
        entry_trees(r@) == outer_sorted(entry_trees(entries@)),
        outer_order(keys_of(entry_trees(r@))),
        drawn_from(entry_trees(r@), entry_trees(entries@)),
{
    let ghost all = entry_trees(entries@);
    let mut out: Vec<(serde_cbor::Value, serde_cbor::Value)> = Vec::new();
    let mut i: usize = 0;
    while i < entries.len()
        invariant
            i == out@.len(),
            i <= entries@.len(),
            forall|k: int|
                0 <= k < entries@.len() ==> writable((#[trigger] entries@[k]).0@) && writable(
                    entries@[k].1@,
                ),
            forall|k: int|
                0 <= k < i ==> outer_tree((#[trigger] out@[k]).0) == entries@[k].0@ && outer_tree(
                    out@[k].1,
                ) == entries@[k].1@,
        decreases entries@.len() - i,
    {
        let ghost here = entries@[i as int];
        let key = to_outer(&entries[i].0);
        let value = to_outer(&entries[i].1);
        out.push((key, value));
        i += 1;
    }
    assert(Seq::new(out@.len(), |k: int| (outer_tree(out@[k].0), outer_tree(out@[k].1)))
        =~= all);
    assert forall|k: int| 0 <= k < all.len() implies comparable((#[trigger] all[k]).0) by {
        assert(all[k].0 == entries@[k].0@);
    }
    let outer = close_outer(NewParts::Mapping(out));
    match from_outer(&outer) {
        CborValue::Mapping(sorted) => {
            proof {
                lemma_map_tree(CborValue::Mapping(sorted));
            }
            sorted
        },
        _ => {
            assert(false);
            Vec::new()
        },
    }
}

/// A copy of a byte string.
pub fn clone_bytes(b: &Vec<u8>) -> (r: Vec<u8>)
    ensures
        r@ == b@,
{
    let r = b.clone();
    assert(r@ =~= b@);
    r
}

impl CborValue {
    /// A copy.
    pub fn copied(&self) -> (r: CborValue)
        ensures
            r@ == self@,
        decreases self,
    {
        match self {
            CborValue::Null => CborValue::Null,
            CborValue::Bool(b) => CborValue::Bool(*b),
            CborValue::Integer(i) => CborValue::Integer(*i),
            CborValue::Float(f) => CborValue::Float(*f),
            CborValue::Bytes(b) => CborValue::Bytes(clone_bytes(b)),
            CborValue::Text(t) => CborValue::Text(t.clone()),
            CborValue::Array(items) => {
                let mut out: Vec<CborValue> = Vec::new();
                let mut i: usize = 0;
                while i < items.len()
                    invariant
                        i == out@.len(),
                        i <= items@.len(),
                        *self == CborValue::Array(*items),
                        forall|k: int| 0 <= k < i ==> (#[trigger] out@[k])@ == items@[k]@,
                    decreases items@.len() - i,
                {
                    assert(self->Array_0@[i as int] == items@[i as int]);
                    out.push(items[i].copied());
                    i += 1;
                }
                let r = CborValue::Array(out);
                proof {
                    lemma_array_tree(r);
                    lemma_array_tree(*self);
                    assert(trees(out@) =~= trees(items@));
                }
                r
            },
            CborValue::Mapping(entries) => {
                let mut out: Vec<(CborValue, CborValue)> = Vec::new();
                let mut i: usize = 0;
                while i < entries.len()
                    invariant
                        i == out@.len(),
                        i <= entries@.len(),
                        *self == CborValue::Mapping(*entries),
                        forall|k: int|
                            0 <= k < i ==> (#[trigger] out@[k]).0@ == entries@[k].0@ && out@[k].1@
                                == entries@[k].1@,
                    decreases entries@.len() - i,
                {
                    assert(self->Mapping_0@[i as int] == entries@[i as int]);
                    let key = entries[i].0.copied();
                    let value = entries[i].1.copied();
                    out.push((key, value));
                    i += 1;
                }
                let r = CborValue::Mapping(out);
                proof {
                    lemma_map_tree(r);
                    lemma_map_tree(*self);
                    assert(entry_trees(out@) =~= entry_trees(entries@));
                }
                r
            },
            CborValue::Tag(n, inner) => CborValue::Tag(*n, Box::new(inner.copied())),
            CborValue::Hidden => CborValue::Hidden,
        }
    }
}

/// Reads one CBOR value that fills `bytes`.
pub fn decode_cbor(bytes: &[u8]) -> (r: Result<CborValue, String>)
    ensures
        match r {
            Ok(v) => cbor_parsed(bytes@) == Ok::<CborTree, Seq<char>>(v@) && writable(v@),
            Err(e) => cbor_parsed(bytes@) == Err::<CborTree, Seq<char>>(e@),
        },
{
    match parse_outer(bytes) {
        Ok(v) => Ok(from_outer(&v)),
        Err(e) => Err(e),
    }
}

/// A value that is read back as it was written can be written.
pub proof fn lemma_round_trips_writable(t: CborTree, depth: nat)
    requires
        round_trips(t, depth),
    ensures
        writable(t),
    decreases t,
{
    match t {
        CborTree::Array(items) => {
            assert forall|i: int| 0 <= i < items.len() implies writable(#[trigger] items[i]) by {
                lemma_round_trips_writable(items[i], (depth - 1) as nat);
            }
        },
        CborTree::Mapping(entries) => {
            assert forall|i: int| 0 <= i < entries.len() implies writable((#[trigger] entries[i]).0)
                && writable(entries[i].1) by {
                assert(is_plain_key(keys_of(entries)[i]));
                lemma_round_trips_writable(entries[i].1, (depth - 1) as nat);
            }
        },
        _ => {},
    }
}

/// The value of the first entry whose key is the text `key`.
pub open spec fn text_entry(entries: Seq<(CborTree, CborTree)>, key: Seq<char>) -> Option<CborTree>
    decreases entries.len(),
{
    if entries.len() == 0 {
        None
    } else if entries[0].0 == CborTree::Text(key) {
        Some(entries[0].1)
    } else {
        text_entry(entries.drop_first(), key)
    }
}

/// The value under a text key.
pub fn get_text_entry<'a>(entries: &'a Vec<(CborValue, CborValue)>, key: &str) -> (r: Option<
    &'a CborValue,
>)
    ensures
        match (r, text_entry(entry_trees(entries@), key@)) {
            (Some(v), Some(t)) => v@ == t,
            (None, None) => true,
            _ => false,
        },
{
    let ghost s = entry_trees(entries@);
    let mut i: usize = 0;
    assert(s.skip(0) =~= s);
    while i < entries.len()
        invariant
            i <= entries@.len(),
            s == entry_trees(entries@),
            text_entry(s, key@) == text_entry(s.skip(i as int), key@),
        decreases entries@.len() - i,
    {
        assert(s.skip(i as int)[0] == s[i as int]);
        assert(s[i as int] == (entries@[i as int].0@, entries@[i as int].1@));
        if let CborValue::Text(t) = &entries[i].0 {
            if str_eq(t.as_str(), key) {
                return Some(&entries[i].1);
            }
        }
        assert(s.skip(i as int).drop_first() =~= s.skip(i + 1));
        i += 1;
    }
    None
}

} // verus!
