//! What holds of values and their literals.
use vstd::prelude::*;

use crate::codec::{base64_parsed, base64_text, entries_to_lits, field_to_lit, fields_to_lits,
    is_variant_record, key_to_lit, lit_to_value, lits_to_fields, lits_to_map, lits_to_set,
    lits_to_values, value_to_lit, values_to_lits};
use crate::literal::LitTree;
use crate::value::{map_insert, record_get, record_insert, set_insert, value_key_lt, KeyTree,
    ValueTree};

verus! {

/// Whether every byte string of a value is read back from its base64 text.
pub open spec fn bytes_read_back(v: ValueTree) -> bool
    decreases v,
{
    match v {
        ValueTree::Bytes(b) => base64_parsed(base64_text(b)) == Ok::<Seq<u8>, Seq<char>>(b),
        ValueTree::List(items) => forall|i: int|
            0 <= i < items.len() ==> bytes_read_back(#[trigger] items[i]),
        ValueTree::Mapping(items) => forall|i: int|
            0 <= i < items.len() ==> bytes_read_back((#[trigger] items[i]).1),
        ValueTree::Record(items) => forall|i: int|
            0 <= i < items.len() ==> bytes_read_back((#[trigger] items[i]).1),
        _ => true,
    }
}

/// Whether keys stand in key order, and none twice.
pub open spec fn keys_in_order(keys: Seq<KeyTree>) -> bool {
    forall|i: int, j: int|
        0 <= i < j < keys.len() ==> #[trigger] keys[i] != #[trigger] keys[j] && !value_key_lt(
            keys[j],
            keys[i],
        )
}

pub open spec fn entry_keys<V>(items: Seq<(KeyTree, V)>) -> Seq<KeyTree> {
    Seq::new(items.len(), |i: int| items[i].0)
}

/// Whether no name stands twice.
pub open spec fn names_once<V>(items: Seq<(Seq<char>, V)>) -> bool {
    forall|i: int, j: int|
        0 <= i < j < items.len() ==> (#[trigger] items[i]).0 != (#[trigger] items[j]).0
}

/// Whether a value has a literal of its own: it holds no unit, its sets and maps are in key order,
/// its records name each field once, and a record that stands for a variant is a tag followed by a
/// value that is there.
pub open spec fn plain(v: ValueTree) -> bool
    decreases v,
{
    match v {
        ValueTree::Unit => false,
        ValueTree::List(items) => forall|i: int|
            0 <= i < items.len() ==> plain(#[trigger] items[i]),
        ValueTree::SetOf(keys) => keys_in_order(keys),
        ValueTree::Mapping(items) => keys_in_order(entry_keys(items)) && forall|i: int|
            0 <= i < items.len() ==> plain((#[trigger] items[i]).1),
        ValueTree::Record(items) => {
            &&& names_once(items)
            &&& forall|i: int| 0 <= i < items.len() ==> plain((#[trigger] items[i]).1)
            &&& is_variant_record(items) ==> items[0].0 == "$tag"@ && items[0].1 is Text
                && items[1].0 == "$value"@ && items[1].1 !is Null
        },
        _ => true,
    }
}

pub(crate) proof fn lemma_set_insert_last(s: Seq<KeyTree>, k: KeyTree)
    requires
        forall|i: int| 0 <= i < s.len() ==> #[trigger] s[i] != k && !value_key_lt(k, s[i]),
    ensures
        set_insert(s, k) == s.push(k),
    decreases s.len(),
{
    if s.len() > 0 {
        let rest = s.drop_first();
        assert forall|i: int| 0 <= i < rest.len() implies #[trigger] rest[i] != k
            && !value_key_lt(k, rest[i]) by {
            assert(rest[i] == s[i + 1]);
        }
        lemma_set_insert_last(rest, k);
        assert(s[0] != k);
        assert(seq![s[0]] + rest.push(k) =~= s.push(k));
    } else {
        assert(seq![k] =~= s.push(k));
    }
}

proof fn lemma_map_insert_last<V>(s: Seq<(KeyTree, V)>, k: KeyTree, v: V)
    requires
        forall|i: int| 0 <= i < s.len() ==> (#[trigger] s[i]).0 != k && !value_key_lt(k, s[i].0),
    ensures
        map_insert(s, k, v) == s.push((k, v)),
    decreases s.len(),
{
    if s.len() > 0 {
        let rest = s.drop_first();
        assert forall|i: int| 0 <= i < rest.len() implies (#[trigger] rest[i]).0 != k
            && !value_key_lt(k, rest[i].0) by {
            assert(rest[i] == s[i + 1]);
        }
        lemma_map_insert_last(rest, k, v);
        assert(s[0].0 != k);
        assert(seq![s[0]] + rest.push((k, v)) =~= s.push((k, v)));
    } else {
        assert(seq![(k, v)] =~= s.push((k, v)));
    }
}

proof fn lemma_record_insert_last<V>(s: Seq<(Seq<char>, V)>, name: Seq<char>, v: V)
    requires
        forall|i: int| 0 <= i < s.len() ==> (#[trigger] s[i]).0 != name,
    ensures
        record_insert(s, name, v) == s.push((name, v)),
    decreases s.len(),
{
    if s.len() > 0 {
        let rest = s.drop_first();
        assert forall|i: int| 0 <= i < rest.len() implies (#[trigger] rest[i]).0 != name by {
            assert(rest[i] == s[i + 1]);
        }
        lemma_record_insert_last(rest, name, v);
        assert(s[0].0 != name);
        assert(seq![s[0]] + rest.push((name, v)) =~= s.push((name, v)));
    } else {
        assert(seq![(name, v)] =~= s.push((name, v)));
    }
}

/// A value that has a literal of its own is what the literal stands for.
pub proof fn lemma_literal_reads_back(v: ValueTree)
    requires
        plain(v),
        bytes_read_back(v),
    ensures
        value_to_lit(v) matches Ok(l) && lit_to_value(l) == Ok::<ValueTree, Seq<char>>(v),
    decreases v, 1int,
{
    match v {
        ValueTree::List(items) => {
            lemma_list_reads_back(items);
        },
        ValueTree::SetOf(keys) => {
            lemma_set_reads_back(keys);
        },
        ValueTree::Mapping(items) => {
            lemma_map_reads_back(items);
        },
        ValueTree::Record(items) => {
            if is_variant_record(items) {
                lemma_variant_reads_back(items);
            } else {
                lemma_fields_read_back(items);
            }
        },
        _ => {},
    }
}

proof fn lemma_list_reads_back(items: Seq<ValueTree>)
    requires
        forall|i: int| 0 <= i < items.len() ==> plain(#[trigger] items[i]),
        forall|i: int| 0 <= i < items.len() ==> bytes_read_back(#[trigger] items[i]),
    ensures
        values_to_lits(items) matches Ok(l) && lits_to_values(l) == Ok::<
            Seq<ValueTree>,
            Seq<char>,
        >(items),
    decreases items, 0int,
{
    if items.len() > 0 {
        let front = items.drop_last();
        assert forall|i: int| 0 <= i < front.len() implies plain(#[trigger] front[i])
            && bytes_read_back(front[i]) by {
            assert(front[i] == items[i]);
        }
        lemma_list_reads_back(front);
        assert(items.last() == items[items.len() - 1]);
        lemma_literal_reads_back(items.last());
        let lits = values_to_lits(front)->Ok_0;
        let last = value_to_lit(items.last())->Ok_0;
        assert(lits.push(last).drop_last() =~= lits);
        assert(front.push(items.last()) =~= items);
    } else {
        assert(items =~= Seq::empty());
    }
}

pub open spec fn keys_lits(keys: Seq<KeyTree>) -> Seq<LitTree> {
    Seq::new(keys.len(), |i: int| key_to_lit(keys[i]))
}

proof fn lemma_set_reads_back(keys: Seq<KeyTree>)
    requires
        keys_in_order(keys),
    ensures
        lits_to_set(keys_lits(keys)) == Ok::<Seq<KeyTree>, Seq<char>>(keys),
    decreases keys.len(),
{
    if keys.len() > 0 {
        let front = keys.drop_last();
        assert forall|i: int, j: int| 0 <= i < j < front.len() implies #[trigger] front[i]
            != #[trigger] front[j] && !value_key_lt(front[j], front[i]) by {
            assert(front[i] == keys[i] && front[j] == keys[j]);
        }
        lemma_set_reads_back(front);
        assert(keys_lits(keys).drop_last() =~= keys_lits(front));
        let k = keys.last();
        assert(k == keys[keys.len() - 1]);
        assert forall|i: int| 0 <= i < front.len() implies #[trigger] front[i] != k
            && !value_key_lt(k, front[i]) by {
            assert(front[i] == keys[i]);
        }
        lemma_set_insert_last(front, k);
        assert(front.push(k) =~= keys);
    } else {
        assert(keys =~= Seq::empty());
    }
}

proof fn lemma_map_reads_back(items: Seq<(KeyTree, ValueTree)>)
    requires
        keys_in_order(entry_keys(items)),
        forall|i: int| 0 <= i < items.len() ==> plain((#[trigger] items[i]).1),
        forall|i: int| 0 <= i < items.len() ==> bytes_read_back((#[trigger] items[i]).1),
    ensures
        entries_to_lits(items) matches Ok(l) && lits_to_map(l) == Ok::<
            Seq<(KeyTree, ValueTree)>,
            Seq<char>,
        >(items),
    decreases items, 0int,
{
    if items.len() > 0 {
        let front = items.drop_last();
        let keys = entry_keys(items);
        assert forall|i: int| 0 <= i < front.len() implies plain((#[trigger] front[i]).1)
            && bytes_read_back(front[i].1) by {
            assert(front[i] == items[i]);
        }
        assert forall|i: int, j: int| 0 <= i < j < entry_keys(front).len() implies #[trigger]
            entry_keys(front)[i] != #[trigger] entry_keys(front)[j] && !value_key_lt(
            entry_keys(front)[j],
            entry_keys(front)[i],
        ) by {
            assert(entry_keys(front)[i] == keys[i] && entry_keys(front)[j] == keys[j]);
        }
        lemma_map_reads_back(front);
        assert(items.last() == items[items.len() - 1]);
        lemma_literal_reads_back(items.last().1);
        let lits = entries_to_lits(front)->Ok_0;
        let last = (key_to_lit(items.last().0), value_to_lit(items.last().1)->Ok_0);
        assert(lits.push(last).drop_last() =~= lits);
        let k = items.last().0;
        assert(keys[items.len() - 1] == k);
        assert forall|i: int| 0 <= i < front.len() implies (#[trigger] front[i]).0 != k
            && !value_key_lt(k, front[i].0) by {
            assert(keys[i] == front[i].0);
        }
        lemma_map_insert_last(front, k, items.last().1);
        assert(front.push((k, items.last().1)) =~= items);
    } else {
        assert(items =~= Seq::empty());
    }
}

proof fn lemma_fields_read_back(items: Seq<(Seq<char>, ValueTree)>)
    requires
        names_once(items),
        forall|i: int| 0 <= i < items.len() ==> plain((#[trigger] items[i]).1),
        forall|i: int| 0 <= i < items.len() ==> bytes_read_back((#[trigger] items[i]).1),
    ensures
        fields_to_lits(items) matches Ok(l) && l.len() == items.len() && (forall|i: int|
            0 <= i < l.len() ==> (#[trigger] l[i]).0 == items[i].0) && lits_to_fields(l) == Ok::<
            Seq<(Seq<char>, ValueTree)>,
            Seq<char>,
        >(items),
    decreases items, 0int,
{
    if items.len() > 0 {
        let front = items.drop_last();
        assert forall|i: int| 0 <= i < front.len() implies plain((#[trigger] front[i]).1)
            && bytes_read_back(front[i].1) by {
            assert(front[i] == items[i]);
        }
        assert forall|i: int, j: int| 0 <= i < j < front.len() implies (#[trigger] front[i]).0 != (
        #[trigger] front[j]).0 by {
            assert(front[i] == items[i] && front[j] == items[j]);
        }
        lemma_fields_read_back(front);
        assert(items.last() == items[items.len() - 1]);
        lemma_literal_reads_back(items.last().1);
        let name = items.last().0;
        let lits = fields_to_lits(front)->Ok_0;
        let last = value_to_lit(items.last().1)->Ok_0;
        assert forall|i: int| 0 <= i < front.len() implies (#[trigger] front[i]).0 != name by {
            assert(front[i] == items[i]);
        }
        assert forall|i: int| 0 <= i < lits.len() implies (#[trigger] lits[i]).0 != name by {
            assert(front[i].0 != name);
        }
        lemma_record_insert_last(lits, name, last);
        lemma_record_insert_last(front, name, items.last().1);
        assert(lits.push((name, last)).drop_last() =~= lits);
        assert(front.push((name, items.last().1)) =~= items);
    } else {
        assert(items =~= Seq::empty());
    }
}

proof fn lemma_variant_reads_back(items: Seq<(Seq<char>, ValueTree)>)
    requires
        is_variant_record(items),
        plain(ValueTree::Record(items)),
        bytes_read_back(ValueTree::Record(items)),
    ensures
        value_to_lit(ValueTree::Record(items)) matches Ok(l) && lit_to_value(l) == Ok::<
            ValueTree,
            Seq<char>,
        >(ValueTree::Record(items)),
    decreases items, 0int,
{
    let inner = items[1].1;
    assert(plain(items[1].1));
    lemma_literal_reads_back(inner);
    assert("$tag"@ != "$value"@) by {
        reveal_strlit("$tag");
        reveal_strlit("$value");
        assert("$tag"@.len() == 4 && "$value"@.len() == 6);
    }
    let rest = items.drop_first();
    assert(rest[0] == items[1]);
    assert(record_get(items, "$tag"@) == Some(items[0].1));
    assert(inner !is Unit);
    assert(field_to_lit(rest, "$value"@) == Some(value_to_lit(inner)));
    assert(field_to_lit(items, "$value"@) == Some(value_to_lit(inner)));
    assert(items =~= seq![("$tag"@, items[0].1), ("$value"@, inner)]);
}

/// The byte strings of a record that stands for a variant are those of its value.
pub proof fn lemma_variant_bytes(fields: Seq<(Seq<char>, ValueTree)>)
    requires
        is_variant_record(fields),
        record_get(fields, "$tag"@)->0 is Text,
        bytes_read_back(record_get(fields, "$value"@)->0),
    ensures
        bytes_read_back(ValueTree::Record(fields)),
{
    reveal_strlit("$tag");
    reveal_strlit("$value");
    assert("$tag"@.len() == 4 && "$value"@.len() == 6);
    let rest = fields.drop_first();
    assert(rest[0] == fields[1]);
    assert(rest.drop_first().len() == 0);
    reveal_with_fuel(record_get, 3);
    assert(record_get(rest, "$tag"@) is Some ==> rest[0].0 == "$tag"@);
    assert(record_get(rest, "$value"@) is Some ==> rest[0].0 == "$value"@);
    assert forall|i: int| 0 <= i < fields.len() implies bytes_read_back(
        (#[trigger] fields[i]).1,
    ) by {
        assert(i == 0 || i == 1);
    }
}

} // verus!
