//! Values of plan expressions, literals of definitions, and the types that describe them.
use vstd::prelude::*;

use crate::cbor::clone_bytes;
use crate::hash::HashRef;
use crate::text::{lex_lt, str_eq, str_lt};

pub mod laws;

verus! {

/// A key of a set or a map.
#[derive(Debug)]
pub enum ValueKey {
    Int(i64),
    Nat(u64),
    Text(String),
    Hash(String),
    Uuid(String),
}

/// The model of a key.
pub enum KeyTree {
    Int(i64),
    Nat(u64),
    Text(Seq<char>),
    Hash(Seq<char>),
    Uuid(Seq<char>),
}

impl View for ValueKey {
    type V = KeyTree;

    open spec fn view(&self) -> KeyTree {
        match self {
            ValueKey::Int(i) => KeyTree::Int(*i),
            ValueKey::Nat(n) => KeyTree::Nat(*n),
            ValueKey::Text(t) => KeyTree::Text(t@),
            ValueKey::Hash(t) => KeyTree::Hash(t@),
            ValueKey::Uuid(t) => KeyTree::Uuid(t@),
        }
    }
}

/// The place of a key's kind among the kinds.
pub open spec fn key_rank(k: KeyTree) -> int {
    match k {
        KeyTree::Int(_) => 0,
        KeyTree::Nat(_) => 1,
        KeyTree::Text(_) => 2,
        KeyTree::Hash(_) => 3,
        KeyTree::Uuid(_) => 4,
    }
}

/// The order of keys: by kind, then numbers by value and texts by name order.
pub open spec fn value_key_lt(a: KeyTree, b: KeyTree) -> bool {
    if key_rank(a) != key_rank(b) {
        key_rank(a) < key_rank(b)
    } else {
        match (a, b) {
            (KeyTree::Int(x), KeyTree::Int(y)) => x < y,
            (KeyTree::Nat(x), KeyTree::Nat(y)) => x < y,
            (KeyTree::Text(x), KeyTree::Text(y)) => lex_lt(x, y),
            (KeyTree::Hash(x), KeyTree::Hash(y)) => lex_lt(x, y),
            (KeyTree::Uuid(x), KeyTree::Uuid(y)) => lex_lt(x, y),
            _ => false,
        }
    }
}

impl ValueKey {
    fn rank(&self) -> (r: u8)
        ensures
            r as int == key_rank(self@),
    {
        match self {
            ValueKey::Int(_) => 0,
            ValueKey::Nat(_) => 1,
            ValueKey::Text(_) => 2,
            ValueKey::Hash(_) => 3,
            ValueKey::Uuid(_) => 4,
        }
    }

    /// Whether this key comes before `other`.
    pub fn before(&self, other: &ValueKey) -> (r: bool)
        ensures
            r == value_key_lt(self@, other@),
    {
        let a: u8 = self.rank();
        let b: u8 = other.rank();
        if a != b {
            return a < b;
        }
        match (self, other) {
            (ValueKey::Int(x), ValueKey::Int(y)) => *x < *y,
            (ValueKey::Nat(x), ValueKey::Nat(y)) => *x < *y,
            (ValueKey::Text(x), ValueKey::Text(y)) => str_lt(x.as_str(), y.as_str()),
            (ValueKey::Hash(x), ValueKey::Hash(y)) => str_lt(x.as_str(), y.as_str()),
            (ValueKey::Uuid(x), ValueKey::Uuid(y)) => str_lt(x.as_str(), y.as_str()),
            _ => false,
        }
    }

    /// Whether this key equals `other`.
    pub fn same(&self, other: &ValueKey) -> (r: bool)
        ensures
            r == (self@ == other@),
    {
        match (self, other) {
            (ValueKey::Int(x), ValueKey::Int(y)) => *x == *y,
            (ValueKey::Nat(x), ValueKey::Nat(y)) => *x == *y,
            (ValueKey::Text(x), ValueKey::Text(y)) => str_eq(x.as_str(), y.as_str()),
            (ValueKey::Hash(x), ValueKey::Hash(y)) => str_eq(x.as_str(), y.as_str()),
            (ValueKey::Uuid(x), ValueKey::Uuid(y)) => str_eq(x.as_str(), y.as_str()),
            _ => false,
        }
    }
}

/// A value of the expression language. A set lists its keys and a map its entries in key order; a
/// record lists its fields in order of first insertion.
#[derive(Debug)]
pub enum ExprValue {
    Unit,
    Null,
    Bool(bool),
    Int(i64),
    Nat(u64),
    Dec128(String),
    Bytes(Vec<u8>),
    Text(String),
    TimeNs(u64),
    DurationNs(i64),
    Hash(HashRef),
    Uuid(String),
    List(Vec<ExprValue>),
    SetOf(Vec<ValueKey>),
    Mapping(Vec<(ValueKey, ExprValue)>),
    Record(Vec<(String, ExprValue)>),
}

/// The model of a value.
pub enum ValueTree {
    Unit,
    Null,
    Bool(bool),
    Int(i64),
    Nat(u64),
    Dec128(Seq<char>),
    Bytes(Seq<u8>),
    Text(Seq<char>),
    TimeNs(u64),
    DurationNs(i64),
    Hash(Seq<char>),
    Uuid(Seq<char>),
    List(Seq<ValueTree>),
    SetOf(Seq<KeyTree>),
    Mapping(Seq<(KeyTree, ValueTree)>),
    Record(Seq<(Seq<char>, ValueTree)>),
}

impl ExprValue {
    pub open spec fn tree(self) -> ValueTree
        decreases self,
    {
        match self {
            ExprValue::Unit => ValueTree::Unit,
            ExprValue::Null => ValueTree::Null,
            ExprValue::Bool(b) => ValueTree::Bool(b),
            ExprValue::Int(i) => ValueTree::Int(i),
            ExprValue::Nat(n) => ValueTree::Nat(n),
            ExprValue::Dec128(t) => ValueTree::Dec128(t@),
            ExprValue::Bytes(b) => ValueTree::Bytes(b@),
            ExprValue::Text(t) => ValueTree::Text(t@),
            ExprValue::TimeNs(n) => ValueTree::TimeNs(n),
            ExprValue::DurationNs(i) => ValueTree::DurationNs(i),
            ExprValue::Hash(h) => ValueTree::Hash(h@),
            ExprValue::Uuid(t) => ValueTree::Uuid(t@),
            ExprValue::List(items) => ValueTree::List(
                Seq::new(
                    items@.len(),
                    |i: int|
                        if 0 <= i < items@.len() {
                            items@[i].tree()
                        } else {
                            ValueTree::Unit
                        },
                ),
            ),
            ExprValue::SetOf(keys) => ValueTree::SetOf(
                Seq::new(keys@.len(), |i: int| keys@[i]@),
            ),
            ExprValue::Mapping(entries) => ValueTree::Mapping(
                Seq::new(
                    entries@.len(),
                    |i: int|
                        if 0 <= i < entries@.len() {
                            (entries@[i].0@, entries@[i].1.tree())
                        } else {
                            (KeyTree::Int(0), ValueTree::Unit)
                        },
                ),
            ),
            ExprValue::Record(fields) => ValueTree::Record(
                Seq::new(
                    fields@.len(),
                    |i: int|
                        if 0 <= i < fields@.len() {
                            (fields@[i].0@, fields@[i].1.tree())
                        } else {
                            (Seq::empty(), ValueTree::Unit)
                        },
                ),
            ),
        }
    }
}

impl View for ExprValue {
    type V = ValueTree;

    open spec fn view(&self) -> ValueTree {
        self.tree()
    }
}

/// The models of a list of values.
pub open spec fn value_trees(items: Seq<ExprValue>) -> Seq<ValueTree> {
    Seq::new(items.len(), |i: int| items[i]@)
}

/// The models of a list of keys.
pub open spec fn key_trees(items: Seq<ValueKey>) -> Seq<KeyTree> {
    Seq::new(items.len(), |i: int| items[i]@)
}

/// The models of the entries of a map.
pub open spec fn entry_trees(items: Seq<(ValueKey, ExprValue)>) -> Seq<(KeyTree, ValueTree)> {
    Seq::new(items.len(), |i: int| (items[i].0@, items[i].1@))
}

/// The models of the fields of a record.
pub open spec fn field_trees<V: View>(items: Seq<(String, V)>) -> Seq<(Seq<char>, V::V)> {
    Seq::new(items.len(), |i: int| (items[i].0@, items[i].1@))
}

/// The model of a composite value, by the models of its parts.
pub broadcast proof fn lemma_value_tree(v: ExprValue)
    ensures
        #[trigger] v.tree() == match v {
            ExprValue::List(items) => ValueTree::List(value_trees(items@)),
            ExprValue::SetOf(keys) => ValueTree::SetOf(key_trees(keys@)),
            ExprValue::Mapping(entries) => ValueTree::Mapping(entry_trees(entries@)),
            ExprValue::Record(fields) => ValueTree::Record(field_trees(fields@)),
            _ => v.tree(),
        },
{
    match v {
        ExprValue::List(items) => {
            assert(v.tree()->List_0 =~= value_trees(items@));
        },
        ExprValue::SetOf(keys) => {
            assert(v.tree()->SetOf_0 =~= key_trees(keys@));
        },
        ExprValue::Mapping(entries) => {
            assert(v.tree()->Mapping_0 =~= entry_trees(entries@));
        },
        ExprValue::Record(fields) => {
            assert(v.tree()->Record_0 =~= field_trees(fields@));
        },
        _ => {},
    }
}

/// The set with `k` in it, in key order.
pub open spec fn set_insert(s: Seq<KeyTree>, k: KeyTree) -> Seq<KeyTree>
    decreases s.len(),
{
    if s.len() == 0 {
        seq![k]
    } else if s[0] == k {
        s
    } else if value_key_lt(k, s[0]) {
        seq![k] + s
    } else {
        seq![s[0]] + set_insert(s.drop_first(), k)
    }
}

/// The map with `k` bound to `v`, in key order.
pub open spec fn map_insert<V>(s: Seq<(KeyTree, V)>, k: KeyTree, v: V) -> Seq<(KeyTree, V)>
    decreases s.len(),
{
    if s.len() == 0 {
        seq![(k, v)]
    } else if s[0].0 == k {
        seq![(k, v)] + s.drop_first()
    } else if value_key_lt(k, s[0].0) {
        seq![(k, v)] + s
    } else {
        seq![s[0]] + map_insert(s.drop_first(), k, v)
    }
}

/// The record with the field `name` set to `v`: in place where the field is there, else at the
/// end.
pub open spec fn record_insert<V>(s: Seq<(Seq<char>, V)>, name: Seq<char>, v: V) -> Seq<
    (Seq<char>, V),
>
    decreases s.len(),
{
    if s.len() == 0 {
        seq![(name, v)]
    } else if s[0].0 == name {
        seq![(name, v)] + s.drop_first()
    } else {
        seq![s[0]] + record_insert(s.drop_first(), name, v)
    }
}

/// The value of the field `name`.
pub open spec fn record_get<V>(s: Seq<(Seq<char>, V)>, name: Seq<char>) -> Option<V>
    decreases s.len(),
{
    if s.len() == 0 {
        None
    } else if s[0].0 == name {
        Some(s[0].1)
    } else {
        record_get(s.drop_first(), name)
    }
}

/// A field reads back what was last written to it, and other fields are left alone.
pub proof fn lemma_record_get_insert<V>(
    s: Seq<(Seq<char>, V)>,
    name: Seq<char>,
    v: V,
    other: Seq<char>,
)
    ensures
        record_get(record_insert(s, name, v), other) == if other == name {
            Some(v)
        } else {
            record_get(s, other)
        },
    decreases s.len(),
{
    let t = record_insert(s, name, v);
    if s.len() == 0 {
        assert(t.drop_first() =~= Seq::empty());
    } else if s[0].0 == name {
        assert(t.drop_first() =~= s.drop_first());
    } else {
        assert(t.drop_first() =~= record_insert(s.drop_first(), name, v));
        lemma_record_get_insert(s.drop_first(), name, v, other);
    }
}

/// Adds `k` to a set.
pub fn insert_key(keys: &mut Vec<ValueKey>, k: ValueKey)
    ensures
        key_trees(final(keys)@) == set_insert(key_trees(old(keys)@), k@),
{
    let ghost s = key_trees(keys@);
    let mut i: usize = 0;
    assert(s.take(0) + set_insert(s.skip(0), k@) =~= set_insert(s, k@)) by {
        assert(s.skip(0) =~= s);
    }
    while i < keys.len()
        invariant
            i <= keys@.len(),
            s == key_trees(keys@),
            *keys == *old(keys),
            set_insert(s, k@) == s.take(i as int) + set_insert(s.skip(i as int), k@),
        decreases keys@.len() - i,
    {
        assert(s.skip(i as int)[0] == keys@[i as int]@);
        if keys[i].same(&k) {
            assert(s.take(i as int) + s.skip(i as int) =~= s);
            return ;
        }
        if k.before(&keys[i]) {
            let ghost kt = k@;
            let ghost before = keys@;
            keys.insert(i, k);
            assert(key_trees(keys@) =~= s.take(i as int) + (seq![kt] + s.skip(i as int)));
            return ;
        }
        assert(s.skip(i as int).drop_first() =~= s.skip(i + 1));
        assert(s.take(i as int) + (seq![s[i as int]] + set_insert(s.skip(i + 1), k@)) =~= s.take(
            i + 1,
        ) + set_insert(s.skip(i + 1), k@));
        i += 1;
    }
    let ghost kt = k@;
    assert(s.take(i as int) + set_insert(s.skip(i as int), k@) =~= s + seq![k@]);
    keys.push(k);
    assert(key_trees(keys@) =~= s + seq![kt]);
}

/// Binds `k` to `v` in a map.
pub fn insert_entry(entries: &mut Vec<(ValueKey, ExprValue)>, k: ValueKey, v: ExprValue)
    ensures
        entry_trees(final(entries)@) == map_insert(entry_trees(old(entries)@), k@, v@),
{
    let ghost s = entry_trees(entries@);
    let ghost kt = k@;
    let ghost vt = v@;
    let mut i: usize = 0;
    assert(s.take(0) + map_insert(s.skip(0), kt, vt) =~= map_insert(s, kt, vt)) by {
        assert(s.skip(0) =~= s);
    }
    while i < entries.len()
        invariant
            i <= entries@.len(),
            s == entry_trees(entries@),
            *entries == *old(entries),
            kt == k@,
            vt == v@,
            map_insert(s, kt, vt) == s.take(i as int) + map_insert(s.skip(i as int), kt, vt),
        decreases entries@.len() - i,
    {
        assert(s.skip(i as int)[0].0 == entries@[i as int].0@);
        assert(s.skip(i as int).drop_first() =~= s.skip(i + 1));
        if entries[i].0.same(&k) {
            entries.set(i, (k, v));
            assert(entry_trees(entries@) =~= s.take(i as int) + (seq![(kt, vt)] + s.skip(i + 1)));
            return ;
        }
        if k.before(&entries[i].0) {
            entries.insert(i, (k, v));
            assert(entry_trees(entries@) =~= s.take(i as int) + (seq![(kt, vt)] + s.skip(
                i as int,
            )));
            return ;
        }
        assert(s.take(i as int) + (seq![s[i as int]] + map_insert(s.skip(i + 1), kt, vt))
            =~= s.take(i + 1) + map_insert(s.skip(i + 1), kt, vt));
        i += 1;
    }
    assert(s.take(i as int) + map_insert(s.skip(i as int), kt, vt) =~= s + seq![(kt, vt)]);
    entries.push((k, v));
    assert(entry_trees(entries@) =~= s + seq![(kt, vt)]);
}

/// Sets the field `name` of a record.
pub fn insert_field<V: View>(fields: &mut Vec<(String, V)>, name: String, v: V)
    ensures
        field_trees(final(fields)@) == record_insert(field_trees(old(fields)@), name@, v@),
{
    let ghost s = field_trees(fields@);
    let ghost nt = name@;
    let ghost vt = v@;
    let mut i: usize = 0;
    assert(s.take(0) + record_insert(s.skip(0), nt, vt) =~= record_insert(s, nt, vt)) by {
        assert(s.skip(0) =~= s);
    }
    while i < fields.len()
        invariant
            i <= fields@.len(),
            s == field_trees(fields@),
            *fields == *old(fields),
            nt == name@,
            vt == v@,
            record_insert(s, nt, vt) == s.take(i as int) + record_insert(s.skip(i as int), nt, vt),
        decreases fields@.len() - i,
    {
        assert(s.skip(i as int)[0].0 == fields@[i as int].0@);
        assert(s.skip(i as int).drop_first() =~= s.skip(i + 1));
        if str_eq(fields[i].0.as_str(), name.as_str()) {
            fields.set(i, (name, v));
            assert(field_trees(fields@) =~= s.take(i as int) + (seq![(nt, vt)] + s.skip(i + 1)));
            return ;
        }
        assert(s.take(i as int) + (seq![s[i as int]] + record_insert(s.skip(i + 1), nt, vt))
            =~= s.take(i + 1) + record_insert(s.skip(i + 1), nt, vt));
        i += 1;
    }
    assert(s.take(i as int) + record_insert(s.skip(i as int), nt, vt) =~= s + seq![(nt, vt)]);
    fields.push((name, v));
    assert(field_trees(fields@) =~= s + seq![(nt, vt)]);
}

/// The value of the field `name` of a record.
pub fn get_field<'a, V: View>(fields: &'a Vec<(String, V)>, name: &str) -> (r: Option<&'a V>)
    ensures
        match r {
            Some(v) => record_get(field_trees(fields@), name@) == Some(v@) && exists|i: int|
                0 <= i < fields@.len() && *v == (#[trigger] fields@[i]).1,
            None => record_get(field_trees(fields@), name@) is None,
        },
{
    let ghost s = field_trees(fields@);
    let mut i: usize = 0;
    assert(s.skip(0) =~= s);
    while i < fields.len()
        invariant
            i <= fields@.len(),
            s == field_trees(fields@),
            record_get(s, name@) == record_get(s.skip(i as int), name@),
        decreases fields@.len() - i,
    {
        assert(s.skip(i as int)[0].0 == fields@[i as int].0@);
        if str_eq(fields[i].0.as_str(), name) {
            return Some(&fields[i].1);
        }
        assert(s.skip(i as int).drop_first() =~= s.skip(i + 1));
        i += 1;
    }
    None
}

impl ValueKey {
    /// A copy of the key.
    pub fn copied(&self) -> (r: ValueKey)
        ensures
            r@ == self@,
    {
        match self {
            ValueKey::Int(i) => ValueKey::Int(*i),
            ValueKey::Nat(n) => ValueKey::Nat(*n),
            ValueKey::Text(t) => ValueKey::Text(t.clone()),
            ValueKey::Hash(t) => ValueKey::Hash(t.clone()),
            ValueKey::Uuid(t) => ValueKey::Uuid(t.clone()),
        }
    }
}

/// The name of a value's kind.
pub open spec fn value_kind(v: ValueTree) -> Seq<char> {
    match v {
        ValueTree::Unit => "unit"@,
        ValueTree::Null => "null"@,
        ValueTree::Bool(_) => "bool"@,
        ValueTree::Int(_) => "int"@,
        ValueTree::Nat(_) => "nat"@,
        ValueTree::Dec128(_) => "dec128"@,
        ValueTree::Bytes(_) => "bytes"@,
        ValueTree::Text(_) => "text"@,
        ValueTree::TimeNs(_) => "time"@,
        ValueTree::DurationNs(_) => "duration"@,
        ValueTree::Hash(_) => "hash"@,
        ValueTree::Uuid(_) => "uuid"@,
        ValueTree::List(_) => "list"@,
        ValueTree::SetOf(_) => "set"@,
        ValueTree::Mapping(_) => "map"@,
        ValueTree::Record(_) => "record"@,
    }
}

impl ExprValue {
    /// The name of the value's kind.
    pub fn kind(&self) -> (r: &'static str)
        ensures
            r@ == value_kind(self@),
    {
        match self {
            ExprValue::Unit => "unit",
            ExprValue::Null => "null",
            ExprValue::Bool(_) => "bool",
            ExprValue::Int(_) => "int",
            ExprValue::Nat(_) => "nat",
            ExprValue::Dec128(_) => "dec128",
            ExprValue::Bytes(_) => "bytes",
            ExprValue::Text(_) => "text",
            ExprValue::TimeNs(_) => "time",
            ExprValue::DurationNs(_) => "duration",
            ExprValue::Hash(_) => "hash",
            ExprValue::Uuid(_) => "uuid",
            ExprValue::List(_) => "list",
            ExprValue::SetOf(_) => "set",
            ExprValue::Mapping(_) => "map",
            ExprValue::Record(_) => "record",
        }
    }

    /// A copy of the value.
    pub fn copied(&self) -> (r: ExprValue)
        ensures
            r@ == self@,
        decreases self,
    {
        broadcast use lemma_value_tree;

        match self {
            ExprValue::Unit => ExprValue::Unit,
            ExprValue::Null => ExprValue::Null,
            ExprValue::Bool(b) => ExprValue::Bool(*b),
            ExprValue::Int(i) => ExprValue::Int(*i),
            ExprValue::Nat(n) => ExprValue::Nat(*n),
            ExprValue::Dec128(t) => ExprValue::Dec128(t.clone()),
            ExprValue::Bytes(b) => ExprValue::Bytes(clone_bytes(b)),
            ExprValue::Text(t) => ExprValue::Text(t.clone()),
            ExprValue::TimeNs(n) => ExprValue::TimeNs(*n),
            ExprValue::DurationNs(i) => ExprValue::DurationNs(*i),
            ExprValue::Hash(h) => ExprValue::Hash(h.clone()),
            ExprValue::Uuid(t) => ExprValue::Uuid(t.clone()),
            ExprValue::List(items) => {
                let mut out: Vec<ExprValue> = Vec::new();
                let mut i: usize = 0;
                while i < items.len()
                    invariant
                        i == out@.len(),
                        i <= items@.len(),
                        *self == ExprValue::List(*items),
                        forall|k: int| 0 <= k < i ==> (#[trigger] out@[k])@ == items@[k]@,
                    decreases items@.len() - i,
                {
                    assert(self->List_0@[i as int] == items@[i as int]);
                    out.push(items[i].copied());
                    i += 1;
                }
                assert(value_trees(out@) =~= value_trees(items@));
                ExprValue::List(out)
            },
            ExprValue::SetOf(items) => {
                let mut out: Vec<ValueKey> = Vec::new();
                let mut i: usize = 0;
                while i < items.len()
                    invariant
                        i == out@.len(),
                        i <= items@.len(),
                        forall|k: int| 0 <= k < i ==> (#[trigger] out@[k])@ == items@[k]@,
                    decreases items@.len() - i,
                {
                    out.push(items[i].copied());
                    i += 1;
                }
                assert(key_trees(out@) =~= key_trees(items@));
                ExprValue::SetOf(out)
            },
            ExprValue::Mapping(items) => {
                let mut out: Vec<(ValueKey, ExprValue)> = Vec::new();
                let mut i: usize = 0;
                while i < items.len()
                    invariant
                        i == out@.len(),
                        i <= items@.len(),
                        *self == ExprValue::Mapping(*items),
                        forall|k: int|
                            0 <= k < i ==> (#[trigger] out@[k]).0@ == items@[k].0@ && out@[k].1@
                                == items@[k].1@,
                    decreases items@.len() - i,
                {
                    assert(self->Mapping_0@[i as int] == items@[i as int]);
                    out.push((items[i].0.copied(), items[i].1.copied()));
                    i += 1;
                }
                assert(entry_trees(out@) =~= entry_trees(items@));
                ExprValue::Mapping(out)
            },
            ExprValue::Record(items) => {
                let mut out: Vec<(String, ExprValue)> = Vec::new();
                let mut i: usize = 0;
                while i < items.len()
                    invariant
                        i == out@.len(),
                        i <= items@.len(),
                        *self == ExprValue::Record(*items),
                        forall|k: int|
                            0 <= k < i ==> (#[trigger] out@[k]).0@ == items@[k].0@ && out@[k].1@
                                == items@[k].1@,
                    decreases items@.len() - i,
                {
                    assert(self->Record_0@[i as int] == items@[i as int]);
                    out.push((items[i].0.clone(), items[i].1.copied()));
                    i += 1;
                }
                assert(field_trees(out@) =~= field_trees(items@));
                ExprValue::Record(out)
            },
        }
    }
}

} // verus!
