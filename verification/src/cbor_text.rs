//! The text of a CBOR value in messages.
use vstd::prelude::*;

use crate::cbor::{clone_bytes, close_outer, comparable, drawn_from, entry_trees, float_outer,
    lemma_array_tree, lemma_map_tree, outer_sorted, outer_tree, trees, CborTree, CborValue,
    NewParts};

verus! {

/// What `format!` prints for a value of `serde_cbor` by `{:?}`.
pub uninterp spec fn debug_printed(tree: CborTree) -> Seq<char>;

/// `format!` with `{:?}` on a `serde_cbor::Value`, whose `Debug` prints the value and its parts.
#[verifier::external_body]
fn print_debug(v: &serde_cbor::Value) -> (r: String)
    ensures
        r@ == debug_printed(outer_tree(*v)),
{
    format!("{:?}", v)
}

/// Whether a value can be carried over to `serde_cbor`: no part is hidden, and the keys of its maps
/// can be compared.
pub open spec fn showable(t: CborTree) -> bool
    decreases t,
{
    match t {
        CborTree::Array(items) => forall|i: int|
            0 <= i < items.len() ==> showable(#[trigger] items[i]),
        CborTree::Mapping(entries) => forall|i: int|
            0 <= i < entries.len() ==> comparable((#[trigger] entries[i]).0) && showable(
                entries[i].0,
            ) && showable(entries[i].1),
        CborTree::Tag(_, inner) => showable(*inner),
        CborTree::Hidden => false,
        _ => true,
    }
}

/// A value as `serde_cbor` holds it: with its maps in order.
pub open spec fn ordered(t: CborTree) -> CborTree
    decreases t, 1nat,
{
    match t {
        CborTree::Array(items) => CborTree::Array(
            Seq::new(
                items.len(),
                |i: int|
                    if 0 <= i < items.len() {
                        ordered(items[i])
                    } else {
                        CborTree::Null
                    },
            ),
        ),
        CborTree::Mapping(_) => CborTree::Mapping(outer_sorted(ordered_parts(t))),
        CborTree::Tag(n, inner) => CborTree::Tag(n, Box::new(ordered(*inner))),
        _ => t,
    }
}

/// The entries of a map, each part with its maps in order.
pub open spec fn ordered_parts(t: CborTree) -> Seq<(CborTree, CborTree)>
    decreases t, 0nat,
{
    match t {
        CborTree::Mapping(entries) => Seq::new(
            entries.len(),
            |i: int|
                if 0 <= i < entries.len() {
                    (ordered(entries[i].0), ordered(entries[i].1))
                } else {
                    (CborTree::Null, CborTree::Null)
                },
        ),
        _ => Seq::empty(),
    }
}

/// The text that shows a value: what `serde_cbor` prints of it. One that it cannot hold is shown by
/// a word.
pub open spec fn debug_text(t: CborTree) -> Seq<char> {
    if showable(t) {
        debug_printed(ordered(t))
    } else {
        "hidden"@
    }
}

fn is_comparable(v: &CborValue) -> (r: bool)
    ensures
        r == comparable(v@),
    decreases v,
{
    match v {
        CborValue::Integer(n) => *n >= -0x1_0000_0000_0000_0000 && *n < 0x1_0000_0000_0000_0000,
        CborValue::Array(items) => {
            proof {
                lemma_array_tree(*v);
            }
            let mut i: usize = 0;
            while i < items.len()
                invariant
                    i <= items@.len(),
                    *v == CborValue::Array(*items),
                    v@ == CborTree::Array(trees(items@)),
                    forall|k: int| 0 <= k < i ==> comparable(#[trigger] trees(items@)[k]),
                decreases items@.len() - i,
            {
                assert(trees(items@)[i as int] == items@[i as int]@);
                if !is_comparable(&items[i]) {
                    assert(!comparable(v@->Array_0[i as int]));
                    return false;
                }
                i += 1;
            }
            true
        },
        CborValue::Mapping(entries) => {
            proof {
                lemma_map_tree(*v);
            }
            let mut i: usize = 0;
            while i < entries.len()
                invariant
                    i <= entries@.len(),
                    *v == CborValue::Mapping(*entries),
                    v@ == CborTree::Mapping(entry_trees(entries@)),
                    forall|k: int|
                        0 <= k < i ==> comparable((#[trigger] entry_trees(entries@)[k]).0)
                            && comparable(entry_trees(entries@)[k].1),
                decreases entries@.len() - i,
            {
                assert(entry_trees(entries@)[i as int] == (
                    entries@[i as int].0@,
                    entries@[i as int].1@,
                ));
                if !is_comparable(&entries[i].0) || !is_comparable(&entries[i].1) {
                    assert(!comparable(v@->Mapping_0[i as int].0) || !comparable(
                        v@->Mapping_0[i as int].1,
                    ));
                    return false;
                }
                i += 1;
            }
            true
        },
        CborValue::Tag(_, inner) => is_comparable(inner),
        CborValue::Hidden => false,
        _ => true,
    }
}

fn is_showable(v: &CborValue) -> (r: bool)
    ensures
        r == showable(v@),
    decreases v,
{
    match v {
        CborValue::Array(items) => {
            proof {
                lemma_array_tree(*v);
            }
            let mut i: usize = 0;
            while i < items.len()
                invariant
                    i <= items@.len(),
                    *v == CborValue::Array(*items),
                    v@ == CborTree::Array(trees(items@)),
                    forall|k: int| 0 <= k < i ==> showable(#[trigger] trees(items@)[k]),
                decreases items@.len() - i,
            {
                assert(trees(items@)[i as int] == items@[i as int]@);
                if !is_showable(&items[i]) {
                    assert(!showable(v@->Array_0[i as int]));
                    return false;
                }
                i += 1;
            }
            true
        },
        CborValue::Mapping(entries) => {
            proof {
                lemma_map_tree(*v);
            }
            let mut i: usize = 0;
            while i < entries.len()
                invariant
                    i <= entries@.len(),
                    *v == CborValue::Mapping(*entries),
                    v@ == CborTree::Mapping(entry_trees(entries@)),
                    forall|k: int|
                        0 <= k < i ==> comparable((#[trigger] entry_trees(entries@)[k]).0)
                            && showable(entry_trees(entries@)[k].0) && showable(
                            entry_trees(entries@)[k].1,
                        ),
                decreases entries@.len() - i,
            {
                assert(entry_trees(entries@)[i as int] == (
                    entries@[i as int].0@,
                    entries@[i as int].1@,
                ));
                let ghost here = v@->Mapping_0[i as int];
                if !is_comparable(&entries[i].0) || !is_showable(&entries[i].0) || !is_showable(
                    &entries[i].1,
                ) {
                    assert(!comparable(here.0) || !showable(here.0) || !showable(here.1));
                    return false;
                }
                i += 1;
            }
            true
        },
        CborValue::Tag(_, inner) => is_showable(inner),
        CborValue::Hidden => false,
        _ => true,
    }
}

/// Carries a value over to `serde_cbor`, with its maps in order.
fn carry(v: &CborValue) -> (r: serde_cbor::Value)
    requires
        showable(v@),
    ensures
        outer_tree(r) == ordered(v@),
        comparable(v@) ==> comparable(ordered(v@)),
    decreases v,
{
    match v {
        CborValue::Null => close_outer(NewParts::Null),
        CborValue::Bool(b) => close_outer(NewParts::Bool(*b)),
        CborValue::Integer(i) => close_outer(NewParts::Integer(*i)),
        CborValue::Float(f) => float_outer(*f),
        CborValue::Bytes(b) => close_outer(NewParts::Bytes(clone_bytes(b))),
        CborValue::Text(t) => close_outer(NewParts::Text(t.clone())),
        CborValue::Array(items) => {
            let mut out: Vec<serde_cbor::Value> = Vec::new();
            let mut i: usize = 0;
            proof {
                lemma_array_tree(*v);
            }
            while i < items.len()
                invariant
                    i == out@.len(),
                    i <= items@.len(),
                    *v == CborValue::Array(*items),
                    v@ == CborTree::Array(trees(items@)),
                    showable(v@),
                    forall|k: int|
                        0 <= k < i ==> outer_tree(#[trigger] out@[k]) == ordered(items@[k]@) && (
                        comparable(items@[k]@) ==> comparable(ordered(items@[k]@))),
                decreases items@.len() - i,
            {
                assert(v@->Array_0[i as int] == items@[i as int]@);
                out.push(carry(&items[i]));
                i += 1;
            }
            let ghost parts = Seq::new(out@.len(), |k: int| outer_tree(out@[k]));
            assert(parts =~= ordered(v@)->Array_0);
            assert(comparable(v@) ==> comparable(ordered(v@))) by {
                if comparable(v@) {
                    assert forall|k: int| 0 <= k < parts.len() implies comparable(
                        #[trigger] ordered(v@)->Array_0[k],
                    ) by {
                        assert(v@->Array_0[k] == items@[k]@);
                        assert(outer_tree(out@[k]) == ordered(items@[k]@));
                    }
                }
            }
            close_outer(NewParts::Array(out))
        },
        CborValue::Mapping(entries) => {
            let mut out: Vec<(serde_cbor::Value, serde_cbor::Value)> = Vec::new();
            let mut i: usize = 0;
            proof {
                lemma_map_tree(*v);
            }
            while i < entries.len()
                invariant
                    i == out@.len(),
                    i <= entries@.len(),
                    *v == CborValue::Mapping(*entries),
                    v@ == CborTree::Mapping(entry_trees(entries@)),
                    showable(v@),
                    forall|k: int|
                        0 <= k < i ==> outer_tree((#[trigger] out@[k]).0) == ordered(
                            entries@[k].0@,
                        ) && outer_tree(out@[k].1) == ordered(entries@[k].1@) && comparable(
                            ordered(entries@[k].0@),
                        ) && (comparable(entries@[k].1@) ==> comparable(
                            ordered(entries@[k].1@),
                        )),
                decreases entries@.len() - i,
            {
                assert(v@->Mapping_0[i as int] == (entries@[i as int].0@, entries@[i as int].1@));
                let key = carry(&entries[i].0);
                let value = carry(&entries[i].1);
                out.push((key, value));
                i += 1;
            }
            let ghost held = out@;
            let ghost parts = Seq::new(
                held.len(),
                |k: int| (outer_tree(held[k].0), outer_tree(held[k].1)),
            );
            assert(ordered(v@) == CborTree::Mapping(outer_sorted(parts))) by {
                let listed = v@->Mapping_0;
                assert forall|k: int| 0 <= k < parts.len() implies #[trigger] parts[k] == (
                    ordered(listed[k].0),
                    ordered(listed[k].1),
                ) by {
                    assert(outer_tree(held[k].0) == ordered(entries@[k].0@));
                    assert(listed[k] == (entries@[k].0@, entries@[k].1@));
                }
                assert(parts =~= ordered_parts(v@));
            }
            assert forall|k: int| 0 <= k < parts.len() implies comparable(
                (#[trigger] parts[k]).0,
            ) by {
                assert(outer_tree(held[k].0) == ordered(entries@[k].0@));
            }
            let r = close_outer(NewParts::Mapping(out));
            assert(comparable(v@) ==> comparable(ordered(v@))) by {
                if comparable(v@) {
                    let sorted = outer_sorted(parts);
                    assert(drawn_from(sorted, parts));
                    assert forall|k: int| 0 <= k < sorted.len() implies comparable(
                        (#[trigger] sorted[k]).0,
                    ) && comparable(sorted[k].1) by {
                        let a = choose|j: int|
                            0 <= j < parts.len() && (#[trigger] parts[j]).0 == sorted[k].0;
                        let b = choose|j: int|
                            0 <= j < parts.len() && (#[trigger] parts[j]).1 == sorted[k].1;
                        assert(parts[a].0 == sorted[k].0);
                        assert(parts[b].1 == sorted[k].1);
                        assert(outer_tree(held[b].0) == ordered(entries@[b].0@));
                        assert(v@->Mapping_0[b] == (entries@[b].0@, entries@[b].1@));
                    }
                }
            }
            r
        },
        CborValue::Tag(n, inner) => close_outer(NewParts::Tag(*n, carry(inner))),
        CborValue::Hidden => close_outer(NewParts::Null),
    }
}

/// The text that shows a value.
pub fn show(v: &CborValue) -> (r: String)
    ensures
        r@ == debug_text(v@),
{
    if is_showable(v) {
        let outer = carry(v);
        print_debug(&outer)
    } else {
        "hidden".to_owned()
    }
}

} // verus!
