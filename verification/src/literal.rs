//! Literals as they stand in definitions.
use vstd::prelude::*;

use crate::hash::HashRef;
use crate::value::field_trees;

verus! {

/// A literal. Bytes are held in base64; the fields of a record keep their order.
#[derive(Debug)]
pub enum ValueLiteral {
    Null,
    Bool(bool),
    Int(i64),
    Nat(u64),
    Dec128(String),
    Bytes(String),
    Text(String),
    TimeNs(u64),
    DurationNs(i64),
    Hash(HashRef),
    Uuid(String),
    List(Vec<ValueLiteral>),
    SetOf(Vec<ValueLiteral>),
    Mapping(Vec<(ValueLiteral, ValueLiteral)>),
    SecretRef(String, u64),
    Record(Vec<(String, ValueLiteral)>),
    Variant(String, Option<Box<ValueLiteral>>),
}

/// The model of a literal.
pub enum LitTree {
    Null,
    Bool(bool),
    Int(i64),
    Nat(u64),
    Dec128(Seq<char>),
    Bytes(Seq<char>),
    Text(Seq<char>),
    TimeNs(u64),
    DurationNs(i64),
    Hash(Seq<char>),
    Uuid(Seq<char>),
    List(Seq<LitTree>),
    SetOf(Seq<LitTree>),
    Mapping(Seq<(LitTree, LitTree)>),
    SecretRef(Seq<char>, u64),
    Record(Seq<(Seq<char>, LitTree)>),
    Variant(Seq<char>, Option<Box<LitTree>>),
}

impl ValueLiteral {
    pub open spec fn tree(self) -> LitTree
        decreases self,
    {
        match self {
            ValueLiteral::Null => LitTree::Null,
            ValueLiteral::Bool(b) => LitTree::Bool(b),
            ValueLiteral::Int(i) => LitTree::Int(i),
            ValueLiteral::Nat(n) => LitTree::Nat(n),
            ValueLiteral::Dec128(t) => LitTree::Dec128(t@),
            ValueLiteral::Bytes(t) => LitTree::Bytes(t@),
            ValueLiteral::Text(t) => LitTree::Text(t@),
            ValueLiteral::TimeNs(n) => LitTree::TimeNs(n),
            ValueLiteral::DurationNs(i) => LitTree::DurationNs(i),
            ValueLiteral::Hash(h) => LitTree::Hash(h@),
            ValueLiteral::Uuid(t) => LitTree::Uuid(t@),
            ValueLiteral::List(items) => LitTree::List(
                Seq::new(
                    items@.len(),
                    |i: int|
                        if 0 <= i < items@.len() {
                            items@[i].tree()
                        } else {
                            LitTree::Null
                        },
                ),
            ),
            ValueLiteral::SetOf(items) => LitTree::SetOf(
                Seq::new(
                    items@.len(),
                    |i: int|
                        if 0 <= i < items@.len() {
                            items@[i].tree()
                        } else {
                            LitTree::Null
                        },
                ),
            ),
            ValueLiteral::Mapping(items) => LitTree::Mapping(
                Seq::new(
                    items@.len(),
                    |i: int|
                        if 0 <= i < items@.len() {
                            (items@[i].0.tree(), items@[i].1.tree())
                        } else {
                            (LitTree::Null, LitTree::Null)
                        },
                ),
            ),
            ValueLiteral::SecretRef(alias, version) => LitTree::SecretRef(alias@, version),
            ValueLiteral::Record(items) => LitTree::Record(
                Seq::new(
                    items@.len(),
                    |i: int|
                        if 0 <= i < items@.len() {
                            (items@[i].0@, items@[i].1.tree())
                        } else {
                            (Seq::empty(), LitTree::Null)
                        },
                ),
            ),
            ValueLiteral::Variant(tag, value) => LitTree::Variant(
                tag@,
                match value {
                    Some(inner) => Some(Box::new((*inner).tree())),
                    None => None,
                },
            ),
        }
    }
}

impl View for ValueLiteral {
    type V = LitTree;

    open spec fn view(&self) -> LitTree {
        self.tree()
    }
}

/// The models of a list of literals.
pub open spec fn lit_trees(items: Seq<ValueLiteral>) -> Seq<LitTree> {
    Seq::new(items.len(), |i: int| items[i]@)
}

/// The models of the entries of a map literal.
pub open spec fn lit_entry_trees(items: Seq<(ValueLiteral, ValueLiteral)>) -> Seq<
    (LitTree, LitTree),
> {
    Seq::new(items.len(), |i: int| (items[i].0@, items[i].1@))
}

/// The model of a composite literal, by the models of its parts.
pub broadcast proof fn lemma_literal_tree(v: ValueLiteral)
    ensures
        #[trigger] v.tree() == match v {
            ValueLiteral::List(items) => LitTree::List(lit_trees(items@)),
            ValueLiteral::SetOf(items) => LitTree::SetOf(lit_trees(items@)),
            ValueLiteral::Mapping(items) => LitTree::Mapping(lit_entry_trees(items@)),
            ValueLiteral::Record(items) => LitTree::Record(field_trees(items@)),
            _ => v.tree(),
        },
{
    match v {
        ValueLiteral::List(items) => {
            assert(v.tree()->List_0 =~= lit_trees(items@));
        },
        ValueLiteral::SetOf(items) => {
            assert(v.tree()->SetOf_0 =~= lit_trees(items@));
        },
        ValueLiteral::Mapping(items) => {
            assert(v.tree()->Mapping_0 =~= lit_entry_trees(items@));
        },
        ValueLiteral::Record(items) => {
            assert(v.tree()->Record_0 =~= field_trees(items@));
        },
        _ => {},
    }
}

/// The name of a literal's kind.
pub open spec fn literal_kind(l: LitTree) -> Seq<char> {
    match l {
        LitTree::Null => "null"@,
        LitTree::Bool(_) => "bool"@,
        LitTree::Int(_) => "int"@,
        LitTree::Nat(_) => "nat"@,
        LitTree::Dec128(_) => "dec128"@,
        LitTree::Bytes(_) => "bytes"@,
        LitTree::Text(_) => "text"@,
        LitTree::TimeNs(_) => "time_ns"@,
        LitTree::DurationNs(_) => "duration_ns"@,
        LitTree::Hash(_) => "hash"@,
        LitTree::Uuid(_) => "uuid"@,
        LitTree::List(_) => "list"@,
        LitTree::SetOf(_) => "set"@,
        LitTree::Mapping(_) => "map"@,
        LitTree::SecretRef(_, _) => "secret_ref"@,
        LitTree::Record(_) => "record"@,
        LitTree::Variant(_, _) => "variant"@,
    }
}

impl ValueLiteral {
    /// The name of the literal's kind.
    pub fn kind(&self) -> (r: &'static str)
        ensures
            r@ == literal_kind(self@),
    {
        match self {
            ValueLiteral::Null => "null",
            ValueLiteral::Bool(_) => "bool",
            ValueLiteral::Int(_) => "int",
            ValueLiteral::Nat(_) => "nat",
            ValueLiteral::Dec128(_) => "dec128",
            ValueLiteral::Bytes(_) => "bytes",
            ValueLiteral::Text(_) => "text",
            ValueLiteral::TimeNs(_) => "time_ns",
            ValueLiteral::DurationNs(_) => "duration_ns",
            ValueLiteral::Hash(_) => "hash",
            ValueLiteral::Uuid(_) => "uuid",
            ValueLiteral::List(_) => "list",
            ValueLiteral::SetOf(_) => "set",
            ValueLiteral::Mapping(_) => "map",
            ValueLiteral::SecretRef(_, _) => "secret_ref",
            ValueLiteral::Record(_) => "record",
            ValueLiteral::Variant(_, _) => "variant",
        }
    }
}

/// Copies of literals.
fn copy_literals(items: &Vec<ValueLiteral>) -> (r: Vec<ValueLiteral>)
    ensures
        lit_trees(r@) == lit_trees(items@),
    decreases items, 0nat,
{
    let mut out: Vec<ValueLiteral> = Vec::new();
    let mut i: usize = 0;
    while i < items.len()
        invariant
            i == out@.len(),
            i <= items@.len(),
            forall|k: int| 0 <= k < i ==> (#[trigger] out@[k])@ == items@[k]@,
        decreases items@.len() - i,
    {
        assert(decreases_to!(items => items@[i as int]));
        out.push(items[i].copied());
        i += 1;
    }
    assert(lit_trees(out@) =~= lit_trees(items@));
    out
}

impl ValueLiteral {
    /// A copy of the literal.
    pub fn copied(&self) -> (r: ValueLiteral)
        ensures
            r@ == self@,
        decreases self, 1nat,
    {
        broadcast use lemma_literal_tree;

        match self {
            ValueLiteral::Null => ValueLiteral::Null,
            ValueLiteral::Bool(b) => ValueLiteral::Bool(*b),
            ValueLiteral::Int(i) => ValueLiteral::Int(*i),
            ValueLiteral::Nat(n) => ValueLiteral::Nat(*n),
            ValueLiteral::Dec128(t) => ValueLiteral::Dec128(t.clone()),
            ValueLiteral::Bytes(t) => ValueLiteral::Bytes(t.clone()),
            ValueLiteral::Text(t) => ValueLiteral::Text(t.clone()),
            ValueLiteral::TimeNs(n) => ValueLiteral::TimeNs(*n),
            ValueLiteral::DurationNs(i) => ValueLiteral::DurationNs(*i),
            ValueLiteral::Hash(h) => ValueLiteral::Hash(h.clone()),
            ValueLiteral::Uuid(t) => ValueLiteral::Uuid(t.clone()),
            ValueLiteral::List(items) => ValueLiteral::List(copy_literals(items)),
            ValueLiteral::SetOf(items) => ValueLiteral::SetOf(copy_literals(items)),
            ValueLiteral::Mapping(items) => {
                let mut out: Vec<(ValueLiteral, ValueLiteral)> = Vec::new();
                let mut i: usize = 0;
                while i < items.len()
                    invariant
                        i == out@.len(),
                        i <= items@.len(),
                        *self == ValueLiteral::Mapping(*items),
                        forall|k: int|
                            0 <= k < i ==> (#[trigger] out@[k]).0@ == items@[k].0@ && out@[k].1@
                                == items@[k].1@,
                    decreases items@.len() - i,
                {
                    assert(self->Mapping_0@[i as int] == items@[i as int]);
                    out.push((items[i].0.copied(), items[i].1.copied()));
                    i += 1;
                }
                assert(lit_entry_trees(out@) =~= lit_entry_trees(items@));
                ValueLiteral::Mapping(out)
            },
            ValueLiteral::SecretRef(alias, version) => ValueLiteral::SecretRef(
                alias.clone(),
                *version,
            ),
            ValueLiteral::Record(items) => {
                let mut out: Vec<(String, ValueLiteral)> = Vec::new();
                let mut i: usize = 0;
                while i < items.len()
                    invariant
                        i == out@.len(),
                        i <= items@.len(),
                        *self == ValueLiteral::Record(*items),
                        forall|k: int|
                            0 <= k < i ==> (#[trigger] out@[k]).0@ == items@[k].0@ && out@[k].1@
                                == items@[k].1@,
                    decreases items@.len() - i,
                {
                    assert(self->Record_0@[i as int] == items@[i as int]);
                    out.push((items[i].0.clone(), items[i].1.copied()));
                    i += 1;
                }
                assert(field_trees(out@) =~= field_trees(items@));
                ValueLiteral::Record(out)
            },
            ValueLiteral::Variant(tag, value) => {
                let inner = match value {
                    Some(v) => Some(Box::new(v.copied())),
                    None => None,
                };
                ValueLiteral::Variant(tag.clone(), inner)
            },
        }
    }
}

} // verus!
