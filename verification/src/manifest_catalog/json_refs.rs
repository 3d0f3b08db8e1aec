//! References to secrets in JSON documents.
use vstd::prelude::*;

use crate::manifest_catalog::SecretRef;
use crate::text::str_eq;

verus! {

/// A number of a JSON document: a natural one, a negative one, or any other, which is not looked
/// into.
#[derive(Clone, Copy, Debug, PartialEq, Eq, Structural)]
pub enum JsonNumber {
    Natural(u64),
    Negative(i64),
    Other,
}

/// A JSON document. No name occurs twice in an object.
#[derive(Debug)]
pub enum JsonValue {
    Null,
    Bool(bool),
    Number(JsonNumber),
    Text(String),
    Array(Vec<JsonValue>),
    Object(Vec<(String, JsonValue)>),
}

/// The position of a name in an object, or the number of its fields.
pub open spec fn field_index(fields: Seq<(String, JsonValue)>, name: Seq<char>) -> int
    decreases fields.len(),
{
    if fields.len() == 0 {
        0
    } else if fields[0].0@ == name {
        0
    } else {
        1 + field_index(fields.drop_first(), name)
    }
}

pub open spec fn json_field(fields: Seq<(String, JsonValue)>, name: Seq<char>) -> Option<JsonValue> {
    if field_index(fields, name) < fields.len() {
        Some(fields[field_index(fields, name)].1)
    } else {
        None
    }
}

/// A reference: the alias and the version of a secret.
pub type JsonRef = (Seq<char>, u64);

/// The secret that an object refers to: it has an alias and a version, and nothing else.
pub open spec fn secret_in(v: JsonValue) -> Option<JsonRef> {
    match v {
        JsonValue::Object(fields) => match (
            json_field(fields@, "alias"@),
            json_field(fields@, "version"@),
        ) {
            (Some(JsonValue::Text(alias)), Some(JsonValue::Number(JsonNumber::Natural(n)))) =>
                if fields@.len() == 2 {
                Some((alias@, n))
            } else {
                None
            },
            _ => None,
        },
        _ => None,
    }
}

/// The secrets that a document refers to, in order.
pub open spec fn json_refs(v: JsonValue) -> Seq<JsonRef>
    decreases v, 0nat,
{
    let own = match secret_in(v) {
        Some(x) => seq![x],
        None => Seq::empty(),
    };
    match v {
        JsonValue::Array(items) => own + item_refs(items@, items@.len()),
        JsonValue::Object(fields) => own + field_refs(fields@, fields@.len()),
        _ => own,
    }
}

pub open spec fn item_refs(items: Seq<JsonValue>, n: nat) -> Seq<JsonRef>
    decreases items, n,
{
    if n == 0 || n > items.len() {
        Seq::empty()
    } else {
        item_refs(items, (n - 1) as nat) + json_refs(items[n - 1])
    }
}

pub open spec fn field_refs(fields: Seq<(String, JsonValue)>, n: nat) -> Seq<JsonRef>
    decreases fields, n,
{
    if n == 0 || n > fields.len() {
        Seq::empty()
    } else {
        field_refs(fields, (n - 1) as nat) + json_refs(fields[n - 1].1)
    }
}

proof fn lemma_field_index_is(fields: Seq<(String, JsonValue)>, name: Seq<char>, k: int)
    requires
        0 <= k <= fields.len(),
        k < fields.len() ==> fields[k].0@ == name,
        forall|i: int| 0 <= i < k ==> (#[trigger] fields[i]).0@ != name,
    ensures
        field_index(fields, name) == k,
    decreases fields.len(),
{
    if fields.len() > 0 && k > 0 {
        assert(fields[0].0@ != name);
        let rest = fields.drop_first();
        assert forall|i: int| 0 <= i < k - 1 implies (#[trigger] rest[i]).0@ != name by {
            assert(rest[i] == fields[i + 1]);
        }
        lemma_field_index_is(rest, name, k - 1);
    }
}

fn get_field<'a>(fields: &'a Vec<(String, JsonValue)>, name: &str) -> (r: Option<&'a JsonValue>)
    ensures
        match r {
            Some(v) => json_field(fields@, name@) == Some(*v),
            None => json_field(fields@, name@) is None,
        },
{
    let mut i: usize = 0;
    while i < fields.len()
        invariant
            i <= fields@.len(),
            forall|k: int| 0 <= k < i ==> (#[trigger] fields@[k]).0@ != name@,
        decreases fields@.len() - i,
    {
        if str_eq(fields[i].0.as_str(), name) {
            proof {
                lemma_field_index_is(fields@, name@, i as int);
            }
            return Some(&fields[i].1);
        }
        i += 1;
    }
    proof {
        lemma_field_index_is(fields@, name@, i as int);
    }
    None
}

/// The secret that an object refers to.
pub fn try_parse_json_secret_ref(value: &JsonValue) -> (r: Option<SecretRef>)
    ensures
        match (r, secret_in(*value)) {
            (Some(x), Some(y)) => x.alias@ == y.0 && x.version == y.1,
            (None, None) => true,
            _ => false,
        },
{
    if let JsonValue::Object(fields) = value {
        let alias = match get_field(fields, "alias") {
            Some(JsonValue::Text(t)) => t,
            _ => {
                return None;
            },
        };
        let version: u64 = match get_field(fields, "version") {
            Some(JsonValue::Number(JsonNumber::Natural(n))) => *n,
            _ => {
                return None;
            },
        };
        if fields.len() != 2 {
            return None;
        }
        return Some(SecretRef { alias: alias.clone(), version });
    }
    None
}

pub open spec fn refs_found(s: Seq<SecretRef>) -> Seq<JsonRef> {
    Seq::new(s.len(), |i: int| (s[i].alias@, s[i].version))
}

/// Adds the secrets that a document refers to.
pub fn collect_secret_refs_in_json(value: &JsonValue, refs: &mut Vec<SecretRef>)
    ensures
        refs_found(final(refs)@) == refs_found(old(refs)@) + json_refs(*value),
    decreases value,
{
    let ghost start = refs_found(refs@);
    let ghost own = match secret_in(*value) {
        Some(x) => seq![x],
        None => Seq::<JsonRef>::empty(),
    };
    match try_parse_json_secret_ref(value) {
        Some(x) => {
            let ghost before = refs@;
            refs.push(x);
            assert(refs_found(refs@) =~= refs_found(before) + own);
        },
        None => {
            assert(refs_found(refs@) =~= start + own);
        },
    }
    match value {
        JsonValue::Array(items) => {
            let mut i: usize = 0;
            assert(start + own + Seq::empty() =~= start + own);
            while i < items.len()
                invariant
                    i <= items@.len(),
                    *value == JsonValue::Array(*items),
                    refs_found(refs@) == start + own + item_refs(items@, i as nat),
                decreases items@.len() - i,
            {
                assert(value->Array_0@[i as int] == items@[i as int]);
                let ghost done = item_refs(items@, i as nat);
                collect_secret_refs_in_json(&items[i], refs);
                assert(start + own + done + json_refs(items@[i as int]) =~= start + own + (done
                    + json_refs(items@[i as int])));
                i += 1;
            }
            assert(start + own + item_refs(items@, items@.len()) =~= start + (own + item_refs(
                items@,
                items@.len(),
            )));
        },
        JsonValue::Object(fields) => {
            let mut i: usize = 0;
            assert(start + own + Seq::empty() =~= start + own);
            while i < fields.len()
                invariant
                    i <= fields@.len(),
                    *value == JsonValue::Object(*fields),
                    refs_found(refs@) == start + own + field_refs(fields@, i as nat),
                decreases fields@.len() - i,
            {
                assert(value->Object_0@[i as int] == fields@[i as int]);
                let ghost done = field_refs(fields@, i as nat);
                collect_secret_refs_in_json(&fields[i].1, refs);
                assert(start + own + done + json_refs(fields@[i as int].1) =~= start + own + (done
                    + json_refs(fields@[i as int].1)));
                i += 1;
            }
            assert(start + own + field_refs(fields@, fields@.len()) =~= start + (own + field_refs(
                fields@,
                fields@.len(),
            )));
        },
        _ => {},
    }
}

} // verus!
