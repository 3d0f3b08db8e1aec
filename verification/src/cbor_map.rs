//! CBOR maps with text keys.
use vstd::prelude::*;

use crate::cbor::{entry_trees, keys_of, lemma_map_tree, plain_order, round_trips, text_entry,
    CborTree, CborValue};
use crate::cbor_codec::{cbor_insert, insert_cbor, lemma_cbor_insert_order};

verus! {

/// A field: its name and its value.
pub type Field = (Seq<char>, CborTree);

/// The entries of the map that has these fields, in canonical order. Of two fields with one name
/// the later one counts.
pub open spec fn text_map(fields: Seq<Field>) -> Seq<(CborTree, CborTree)>
    decreases fields.len(),
{
    if fields.len() == 0 {
        Seq::empty()
    } else {
        cbor_insert(
            text_map(fields.drop_last()),
            CborTree::Text(fields.last().0),
            fields.last().1,
        )
    }
}

/// The value of a field; of several with one name the last.
pub open spec fn field_value(fields: Seq<Field>, name: Seq<char>) -> Option<CborTree>
    decreases fields.len(),
{
    if fields.len() == 0 {
        None
    } else if fields.last().0 == name {
        Some(fields.last().1)
    } else {
        field_value(fields.drop_last(), name)
    }
}

/// A map under construction.
pub struct FieldMap {
    pub entries: Vec<(CborValue, CborValue)>,
    pub fields: Ghost<Seq<Field>>,
}

impl FieldMap {
    pub open spec fn wf(self) -> bool {
        entry_trees(self.entries@) == text_map(self.fields@)
    }

    pub fn new() -> (r: Self)
        ensures
            r.wf(),
            r.fields@ == Seq::<Field>::empty(),
    {
        let r = FieldMap { entries: Vec::new(), fields: Ghost(Seq::empty()) };
        assert(entry_trees(r.entries@) =~= text_map(r.fields@));
        r
    }

    /// Adds a field.
    pub fn put(&mut self, name: &str, value: CborValue)
        requires
            old(self).wf(),
        ensures
            final(self).wf(),
            final(self).fields@ == old(self).fields@.push((name@, value@)),
    {
        let ghost before = self.fields@;
        let ghost v = value@;
        insert_cbor(&mut self.entries, CborValue::Text(name.to_owned()), value);
        self.fields = Ghost(before.push((name@, v)));
        assert(before.push((name@, v)).drop_last() =~= before);
    }

    /// The finished map.
    pub fn finish(self) -> (r: CborValue)
        requires
            self.wf(),
        ensures
            r@ == CborTree::Mapping(text_map(self.fields@)),
    {
        let r = CborValue::Mapping(self.entries);
        proof {
            lemma_map_tree(r);
        }
        r
    }
}

/// The map of fields is in order, and its values are those of the fields.
pub proof fn lemma_text_map(fields: Seq<Field>)
    ensures
        plain_order(keys_of(text_map(fields))),
        forall|i: int|
            0 <= i < text_map(fields).len() ==> exists|k: int|
                0 <= k < fields.len() && (#[trigger] text_map(fields)[i]).1 == (
                #[trigger] fields[k]).1,
    decreases fields.len(),
{
    let t = text_map(fields);
    if fields.len() == 0 {
        assert(keys_of(t) =~= Seq::empty());
    } else {
        let front = fields.drop_last();
        let s = text_map(front);
        lemma_text_map(front);
        lemma_cbor_insert_order(s, CborTree::Text(fields.last().0), fields.last().1);
        assert forall|i: int| 0 <= i < t.len() implies exists|k: int|
            0 <= k < fields.len() && (#[trigger] t[i]).1 == (#[trigger] fields[k]).1 by {
            if t[i] == (CborTree::Text(fields.last().0), fields.last().1) {
                assert(t[i].1 == fields[fields.len() - 1].1);
            } else {
                assert(s.contains(t[i]));
                let j = choose|j: int| 0 <= j < s.len() && s[j] == t[i];
                let k = choose|k: int|
                    0 <= k < front.len() && s[j].1 == (#[trigger] front[k]).1;
                assert(t[i].1 == fields[k].1);
            }
        }
    }
}

/// A map of fields is read back as it is written, where its values are.
pub proof fn lemma_text_map_round_trips(fields: Seq<Field>, depth: nat)
    requires
        forall|k: int| 0 <= k < fields.len() ==> round_trips((#[trigger] fields[k]).1, depth),
    ensures
        round_trips(CborTree::Mapping(text_map(fields)), depth + 1),
{
    let t = text_map(fields);
    lemma_text_map(fields);
    assert forall|i: int| 0 <= i < t.len() implies round_trips((#[trigger] t[i]).1, depth) by {
        let k = choose|k: int| 0 <= k < fields.len() && t[i].1 == (#[trigger] fields[k]).1;
        assert(round_trips(fields[k].1, depth));
    }
}

proof fn lemma_insert_get(
    s: Seq<(CborTree, CborTree)>,
    name: Seq<char>,
    v: CborTree,
    key: Seq<char>,
)
    ensures
        text_entry(cbor_insert(s, CborTree::Text(name), v), key) == (if key == name {
            Some(v)
        } else {
            text_entry(s, key)
        }),
    decreases s.len(),
{
    let k = CborTree::Text(name);
    let t = cbor_insert(s, k, v);
    reveal_with_fuel(text_entry, 2);
    if s.len() == 0 {
        assert(t.drop_first() =~= Seq::empty());
    } else if s[0].0 == k {
        assert(t.drop_first() =~= s.drop_first());
    } else if crate::cbor::key_lt(k, s[0].0) {
        assert(t.drop_first() =~= s);
    } else {
        assert(t.drop_first() =~= cbor_insert(s.drop_first(), k, v));
        assert(t[0] == s[0]);
        lemma_insert_get(s.drop_first(), name, v, key);
    }
}

/// A map of fields holds their values under their names.
pub proof fn lemma_text_map_get(fields: Seq<Field>, key: Seq<char>)
    ensures
        text_entry(text_map(fields), key) == field_value(fields, key),
    decreases fields.len(),
{
    if fields.len() > 0 {
        lemma_text_map_get(fields.drop_last(), key);
        lemma_insert_get(text_map(fields.drop_last()), fields.last().0, fields.last().1, key);
    }
}

/// A map of fields has under a name the value of the last field of that name.
pub proof fn lemma_text_map_has(fields: Seq<Field>, k: int)
    requires
        0 <= k < fields.len(),
        forall|j: int| k < j < fields.len() ==> (#[trigger] fields[j]).0 != fields[k].0,
    ensures
        text_entry(text_map(fields), fields[k].0) == Some(fields[k].1),
{
    lemma_text_map_get(fields, fields[k].0);
    lemma_field_is(fields, k);
}

proof fn lemma_field_is(fields: Seq<Field>, k: int)
    requires
        0 <= k < fields.len(),
        forall|j: int| k < j < fields.len() ==> (#[trigger] fields[j]).0 != fields[k].0,
    ensures
        field_value(fields, fields[k].0) == Some(fields[k].1),
    decreases fields.len(),
{
    if k < fields.len() - 1 {
        assert(fields.last().0 != fields[k].0);
        lemma_field_is(fields.drop_last(), k);
    }
}

} // verus!
