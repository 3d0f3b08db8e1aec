//! What the grants of a manifest come to, and what becomes of schemas and params on the way.
use vstd::prelude::*;

use crate::cbor::{outer_sorted, text_entry, CborTree};
use crate::cbor_map::{lemma_text_map_has, text_map, Field};
use crate::codec::base64_parsed;
use crate::literal::LitTree;
use crate::types::TypeTree;

use super::expand::{expanded, expands, expansion, parts_expanded};
use super::params::{lit_cbor, lit_entries_cbor, lit_fields_cbor, lits_cbor, made_grant,
    made_grants, CapGrantTree, CodecAnswer, DefTree, GrantFault};
use super::{only_grant, ResolvedTree};

verus! {

/// A grant of a manifest is made if and only if its capability is defined, the references in the
/// schema have targets, the params fit it and can be written, and they have a canonical form. It
/// keeps its name, its capability and its expiry, has the params in canonical form, and takes type
/// and enforcer from the definition.
pub proof fn lemma_grant_of_a_manifest_is_made(
    grant: CapGrantTree,
    caps: Map<Seq<char>, DefTree>,
    schemas: Map<Seq<char>, TypeTree>,
    answer: CodecAnswer,
)
    ensures
        ({
            let def = caps[grant.cap];
            &&& made_grant(grant, caps, schemas, answer) is Ok <==> {
                &&& caps.contains_key(grant.cap)
                &&& expansion(schemas, def.schema, def.name) is Ok
                &&& answer.validated is Ok
                &&& lit_cbor(grant.params) is Ok
                &&& answer.normalized is Ok
            }
            &&& made_grant(grant, caps, schemas, answer) matches Ok(x) ==> {
                &&& x.grant.name == grant.name
                &&& x.grant.cap == grant.cap
                &&& Ok::<Seq<u8>, Seq<char>>(x.grant.params) == answer.normalized
                &&& x.grant.expiry_ns == grant.expiry_ns
                &&& x.cap_type == def.cap_type
                &&& x.enforcer == def.enforcer
            }
            &&& !caps.contains_key(grant.cap) ==> made_grant(grant, caps, schemas, answer) == Err::<
                ResolvedTree,
                GrantFault,
            >(GrantFault::NoDefinition(grant.cap))
        }),
{
}

/// All grants of a manifest are made if and only if each of them is and no two have one name. The
/// table then has each under its name, and nothing else.
pub proof fn lemma_grants_are_kept_apart(
    grants: Seq<CapGrantTree>,
    caps: Map<Seq<char>, DefTree>,
    schemas: Map<Seq<char>, TypeTree>,
    answers: Seq<CodecAnswer>,
    n: nat,
)
    requires
        n <= grants.len(),
    ensures
        made_grants(grants, caps, schemas, answers, n) is Ok <==> {
            &&& forall|i: int, j: int|
                0 <= i < j < n ==> (#[trigger] grants[i]).name != (#[trigger] grants[j]).name
            &&& forall|i: int|
                0 <= i < n ==> made_grant(#[trigger] grants[i], caps, schemas, answers[i]) is Ok
        },
        made_grants(grants, caps, schemas, answers, n) matches Ok(m) ==> {
            &&& forall|i: int|
                0 <= i < n ==> m.contains_key((#[trigger] grants[i]).name) && made_grant(
                    grants[i],
                    caps,
                    schemas,
                    answers[i],
                ) == Ok::<ResolvedTree, GrantFault>(m[grants[i].name])
            &&& forall|name: Seq<char>| #[trigger]
                m.contains_key(name) ==> exists|i: int|
                    0 <= i < n && (#[trigger] grants[i]).name == name
        },
    decreases n,
{
    if n > 0 {
        lemma_grants_are_kept_apart(grants, caps, schemas, answers, (n - 1) as nat);
        let g = grants[n - 1];
        if let Ok(done) = made_grants(grants, caps, schemas, answers, (n - 1) as nat) {
            if done.contains_key(g.name) {
                let i = choose|i: int| 0 <= i < n - 1 && (#[trigger] grants[i]).name == g.name;
                assert(grants[i].name == grants[n - 1].name);
            }
            if let Ok(m) = made_grants(grants, caps, schemas, answers, n) {
                assert forall|name: Seq<char>| #[trigger] m.contains_key(name) implies exists|i: int|
                    0 <= i < n && (#[trigger] grants[i]).name == name by {
                    if name == g.name {
                        assert(grants[n - 1].name == name);
                    } else {
                        assert(done.contains_key(name));
                    }
                }
                assert forall|i: int| 0 <= i < n implies m.contains_key(
                    (#[trigger] grants[i]).name,
                ) && made_grant(grants[i], caps, schemas, answers[i]) == Ok::<
                    ResolvedTree,
                    GrantFault,
                >(m[grants[i].name]) by {
                    if i < n - 1 {
                        assert(done.contains_key(grants[i].name));
                        assert(grants[i].name != g.name);
                    }
                }
            }
        }
    }
}

/// Whether a type holds no references.
pub open spec fn is_closed(ty: TypeTree) -> bool
    decreases ty,
{
    match ty {
        TypeTree::Primitive(_) => true,
        TypeTree::Record(fields) => forall|i: int|
            0 <= i < fields.len() ==> is_closed((#[trigger] fields[i]).1),
        TypeTree::Variant(arms) => forall|i: int|
            0 <= i < arms.len() ==> is_closed((#[trigger] arms[i]).1),
        TypeTree::List(t) => is_closed(*t),
        TypeTree::SetOf(t) => is_closed(*t),
        TypeTree::Mapping(_, t) => is_closed(*t),
        TypeTree::OptionOf(t) => is_closed(*t),
        TypeTree::Ref(_) => false,
    }
}

/// A schema that was filled in holds no references any more.
pub proof fn lemma_filled_in_schema_is_closed(
    m: Map<Seq<char>, TypeTree>,
    ty: TypeTree,
    context: Seq<char>,
    n: nat,
)
    requires
        expands(m, ty, n),
    ensures
        expanded(m, ty, context, n) matches Ok(x) ==> is_closed(x),
    decreases n, ty, 0nat,
{
    match ty {
        TypeTree::Primitive(_) => {},
        TypeTree::Record(fields) => {
            lemma_filled_in_parts(m, fields, context + "."@, fields.len(), n);
        },
        TypeTree::Variant(arms) => {
            lemma_filled_in_parts(m, arms, context + "::"@, arms.len(), n);
        },
        TypeTree::List(t) => {
            lemma_filled_in_schema_is_closed(m, *t, context, n);
        },
        TypeTree::SetOf(t) => {
            lemma_filled_in_schema_is_closed(m, *t, context, n);
        },
        TypeTree::Mapping(_, t) => {
            lemma_filled_in_schema_is_closed(m, *t, context, n);
        },
        TypeTree::OptionOf(t) => {
            lemma_filled_in_schema_is_closed(m, *t, context, n);
        },
        TypeTree::Ref(name) => {
            if m.contains_key(name) {
                lemma_filled_in_schema_is_closed(m, m[name], name, (n - 1) as nat);
            }
        },
    }
}

proof fn lemma_filled_in_parts(
    m: Map<Seq<char>, TypeTree>,
    parts: Seq<(Seq<char>, TypeTree)>,
    head: Seq<char>,
    k: nat,
    n: nat,
)
    requires
        k <= parts.len(),
        forall|i: int| 0 <= i < parts.len() ==> expands(m, (#[trigger] parts[i]).1, n),
    ensures
        parts_expanded(m, parts, head, k, n) matches Ok(out) ==> forall|i: int|
            0 <= i < out.len() ==> is_closed((#[trigger] out[i]).1),
    decreases n, parts, k,
{
    if k > 0 {
        lemma_filled_in_parts(m, parts, head, (k - 1) as nat, n);
        lemma_filled_in_schema_is_closed(m, parts[k - 1].1, head + parts[k - 1].0, n);
        if let Ok(out) = parts_expanded(m, parts, head, k, n) {
            let done = parts_expanded(m, parts, head, (k - 1) as nat, n)->Ok_0;
            assert forall|i: int| 0 <= i < out.len() implies is_closed((#[trigger] out[i]).1) by {
                if i < done.len() {
                    assert(out[i] == done[i]);
                }
            }
        }
    }
}

proof fn lemma_parts_at(
    m: Map<Seq<char>, TypeTree>,
    parts: Seq<(Seq<char>, TypeTree)>,
    head: Seq<char>,
    k: nat,
    n: nat,
)
    requires
        k <= parts.len(),
    ensures
        parts_expanded(m, parts, head, k, n) is Ok <==> forall|i: int|
            0 <= i < k ==> expanded(m, (#[trigger] parts[i]).1, head + parts[i].0, n) is Ok,
        parts_expanded(m, parts, head, k, n) matches Ok(out) ==> out.len() == k && forall|i: int|
            0 <= i < k ==> (#[trigger] out[i]).0 == parts[i].0 && expanded(
                m,
                parts[i].1,
                head + parts[i].0,
                n,
            ) == Ok::<TypeTree, Seq<char>>(out[i].1),
    decreases k,
{
    if k > 0 {
        lemma_parts_at(m, parts, head, (k - 1) as nat, n);
        if let Ok(out) = parts_expanded(m, parts, head, k, n) {
            let done = parts_expanded(m, parts, head, (k - 1) as nat, n)->Ok_0;
            assert forall|i: int| 0 <= i < k implies (#[trigger] out[i]).0 == parts[i].0 && expanded(
                m,
                parts[i].1,
                head + parts[i].0,
                n,
            ) == Ok::<TypeTree, Seq<char>>(out[i].1) by {
                if i < k - 1 {
                    assert(out[i] == done[i]);
                }
            }
        }
    }
}

/// A schema that is filled in keeps its shape: a record has the same fields and a variant the same
/// arms, in their order, each filled in; a list stays a list. A reference becomes what its target
/// comes to, and fails where it has none.
pub proof fn lemma_schema_keeps_its_shape(
    m: Map<Seq<char>, TypeTree>,
    ty: TypeTree,
    context: Seq<char>,
    n: nat,
)
    requires
        expands(m, ty, n),
    ensures
        ({
            let r = expanded(m, ty, context, n);
            &&& ty is Primitive ==> r == Ok::<TypeTree, Seq<char>>(ty)
            &&& ty matches TypeTree::Record(fields) ==> (r is Ok <==> forall|i: int|
                0 <= i < fields.len() ==> expanded(
                    m,
                    (#[trigger] fields[i]).1,
                    context + "."@ + fields[i].0,
                    n,
                ) is Ok) && (r matches Ok(x) ==> (x matches TypeTree::Record(out) && out.len()
                == fields.len() && forall|i: int|
                0 <= i < fields.len() ==> (#[trigger] out[i]).0 == fields[i].0 && expanded(
                    m,
                    fields[i].1,
                    context + "."@ + fields[i].0,
                    n,
                ) == Ok::<TypeTree, Seq<char>>(out[i].1)))
            &&& ty matches TypeTree::Variant(arms) ==> (r is Ok <==> forall|i: int|
                0 <= i < arms.len() ==> expanded(
                    m,
                    (#[trigger] arms[i]).1,
                    context + "::"@ + arms[i].0,
                    n,
                ) is Ok) && (r matches Ok(x) ==> (x matches TypeTree::Variant(out) && out.len()
                == arms.len() && forall|i: int|
                0 <= i < arms.len() ==> (#[trigger] out[i]).0 == arms[i].0 && expanded(
                    m,
                    arms[i].1,
                    context + "::"@ + arms[i].0,
                    n,
                ) == Ok::<TypeTree, Seq<char>>(out[i].1)))
            &&& ty matches TypeTree::List(t) ==> (r is Ok <==> expanded(m, *t, context, n) is Ok) && (
            r matches Ok(x) ==> (x matches TypeTree::List(u) && expanded(m, *t, context, n) == Ok::<
                TypeTree,
                Seq<char>,
            >(*u)))
            &&& ty matches TypeTree::SetOf(t) ==> (r is Ok <==> expanded(m, *t, context, n) is Ok) && (
            r matches Ok(x) ==> (x matches TypeTree::SetOf(u) && expanded(m, *t, context, n) == Ok::<
                TypeTree,
                Seq<char>,
            >(*u)))
            &&& ty matches TypeTree::OptionOf(t) ==> (r is Ok <==> expanded(m, *t, context, n) is Ok)
                && (r matches Ok(x) ==> (x matches TypeTree::OptionOf(u) && expanded(
                m,
                *t,
                context,
                n,
            ) == Ok::<TypeTree, Seq<char>>(*u)))
            &&& ty matches TypeTree::Mapping(k, t) ==> (r is Ok <==> expanded(m, *t, context, n)
                is Ok) && (r matches Ok(x) ==> (x matches TypeTree::Mapping(j, u) && j == k
                && expanded(m, *t, context, n) == Ok::<TypeTree, Seq<char>>(*u)))
            &&& ty matches TypeTree::Ref(name) ==> {
                &&& !m.contains_key(name) ==> r is Err
                &&& m.contains_key(name) ==> n > 0 && r == expanded(m, m[name], name, (n - 1) as nat)
            }
        }),
{
    if let TypeTree::Record(fields) = ty {
        lemma_parts_at(m, fields, context + "."@, fields.len(), n);
    }
    if let TypeTree::Variant(arms) = ty {
        lemma_parts_at(m, arms, context + "::"@, arms.len(), n);
    }
}

proof fn lemma_lits_at(items: Seq<LitTree>, n: nat)
    requires
        n <= items.len(),
    ensures
        lits_cbor(items, n) is Ok <==> forall|i: int|
            0 <= i < n ==> lit_cbor(#[trigger] items[i]) is Ok,
        lits_cbor(items, n) matches Ok(out) ==> out.len() == n && forall|i: int|
            0 <= i < n ==> lit_cbor(items[i]) == Ok::<CborTree, Seq<char>>(#[trigger] out[i]),
    decreases n,
{
    if n > 0 {
        lemma_lits_at(items, (n - 1) as nat);
        if let Ok(out) = lits_cbor(items, n) {
            let done = lits_cbor(items, (n - 1) as nat)->Ok_0;
            assert forall|i: int| 0 <= i < n implies lit_cbor(items[i]) == Ok::<CborTree, Seq<char>>(
                #[trigger] out[i],
            ) by {
                if i < n - 1 {
                    assert(out[i] == done[i]);
                }
            }
        }
    }
}

proof fn lemma_lit_entries_at(items: Seq<(LitTree, LitTree)>, n: nat)
    requires
        n <= items.len(),
    ensures
        lit_entries_cbor(items, n) is Ok <==> forall|i: int|
            0 <= i < n ==> lit_cbor((#[trigger] items[i]).0) is Ok && lit_cbor(items[i].1) is Ok,
        lit_entries_cbor(items, n) matches Ok(out) ==> out.len() == n && forall|i: int|
            0 <= i < n ==> lit_cbor(items[i].0) == Ok::<CborTree, Seq<char>>((#[trigger] out[i]).0)
                && lit_cbor(items[i].1) == Ok::<CborTree, Seq<char>>(out[i].1),
    decreases n,
{
    if n > 0 {
        lemma_lit_entries_at(items, (n - 1) as nat);
        if let Ok(out) = lit_entries_cbor(items, n) {
            let done = lit_entries_cbor(items, (n - 1) as nat)->Ok_0;
            assert forall|i: int| 0 <= i < n implies lit_cbor(items[i].0) == Ok::<
                CborTree,
                Seq<char>,
            >((#[trigger] out[i]).0) && lit_cbor(items[i].1) == Ok::<CborTree, Seq<char>>(
                out[i].1,
            ) by {
                if i < n - 1 {
                    assert(out[i] == done[i]);
                }
            }
        }
    }
}

proof fn lemma_lit_fields_at(items: Seq<(Seq<char>, LitTree)>, n: nat)
    requires
        n <= items.len(),
    ensures
        lit_fields_cbor(items, n) is Ok <==> forall|i: int|
            0 <= i < n ==> lit_cbor((#[trigger] items[i]).1) is Ok,
        lit_fields_cbor(items, n) matches Ok(out) ==> out.len() == n && forall|i: int|
            0 <= i < n ==> (#[trigger] out[i]).0 == items[i].0 && lit_cbor(items[i].1) == Ok::<
                CborTree,
                Seq<char>,
            >(out[i].1),
    decreases n,
{
    if n > 0 {
        lemma_lit_fields_at(items, (n - 1) as nat);
        if let Ok(out) = lit_fields_cbor(items, n) {
            let done = lit_fields_cbor(items, (n - 1) as nat)->Ok_0;
            assert forall|i: int| 0 <= i < n implies (#[trigger] out[i]).0 == items[i].0 && lit_cbor(
                items[i].1,
            ) == Ok::<CborTree, Seq<char>>(out[i].1) by {
                if i < n - 1 {
                    assert(out[i] == done[i]);
                }
            }
        }
    }
}

/// Numbers, instants and durations are written as integers, texts of all sorts as text, bytes as
/// the bytes that their text stands for. A reference to a secret is refused.
pub proof fn lemma_plain_literals_are_written(l: LitTree)
    ensures
        l is Null ==> lit_cbor(l) == Ok::<CborTree, Seq<char>>(CborTree::Null),
        l matches LitTree::Bool(b) ==> lit_cbor(l) == Ok::<CborTree, Seq<char>>(CborTree::Bool(b)),
        l matches LitTree::Int(i) ==> lit_cbor(l) == Ok::<CborTree, Seq<char>>(
            CborTree::Integer(i as i128),
        ),
        l matches LitTree::Nat(n) ==> lit_cbor(l) == Ok::<CborTree, Seq<char>>(
            CborTree::Integer(n as i128),
        ),
        l matches LitTree::TimeNs(n) ==> lit_cbor(l) == Ok::<CborTree, Seq<char>>(
            CborTree::Integer(n as i128),
        ),
        l matches LitTree::DurationNs(i) ==> lit_cbor(l) == Ok::<CborTree, Seq<char>>(
            CborTree::Integer(i as i128),
        ),
        l matches LitTree::Text(t) ==> lit_cbor(l) == Ok::<CborTree, Seq<char>>(CborTree::Text(t)),
        l matches LitTree::Hash(t) ==> lit_cbor(l) == Ok::<CborTree, Seq<char>>(CborTree::Text(t)),
        l matches LitTree::Uuid(t) ==> lit_cbor(l) == Ok::<CborTree, Seq<char>>(CborTree::Text(t)),
        l matches LitTree::Dec128(t) ==> lit_cbor(l) == Ok::<CborTree, Seq<char>>(CborTree::Text(t)),
        l matches LitTree::Bytes(t) ==> match base64_parsed(t) {
            Ok(b) => lit_cbor(l) == Ok::<CborTree, Seq<char>>(CborTree::Bytes(b)),
            Err(_) => lit_cbor(l) is Err,
        },
        l is SecretRef ==> lit_cbor(l) is Err,
{
}

/// A list or a set is written as the array of its items, in their order; a map as its entries,
/// sorted; a record as the map of its fields; a variant as a map of its tag alone. Each can be
/// written if and only if everything in it can.
pub proof fn lemma_nested_literals_are_written(l: LitTree)
    ensures
        l matches LitTree::List(items) ==> is_written(lit_cbor(l), items),
        l matches LitTree::SetOf(items) ==> is_written(lit_cbor(l), items),
        l matches LitTree::Mapping(items) ==> (lit_cbor(l) is Ok <==> forall|i: int|
            0 <= i < items.len() ==> lit_cbor((#[trigger] items[i]).0) is Ok && lit_cbor(items[i].1)
                is Ok) && (lit_cbor(l) matches Ok(x) ==> exists|s: Seq<(CborTree, CborTree)>|
            x == CborTree::Mapping(#[trigger] outer_sorted(s)) && s.len() == items.len() && forall|
                i: int,
            |
                0 <= i < items.len() ==> lit_cbor(items[i].0) == Ok::<CborTree, Seq<char>>(
                    (#[trigger] s[i]).0,
                ) && lit_cbor(items[i].1) == Ok::<CborTree, Seq<char>>(s[i].1)),
        l matches LitTree::Record(items) ==> (lit_cbor(l) is Ok <==> forall|i: int|
            0 <= i < items.len() ==> lit_cbor((#[trigger] items[i]).1) is Ok) && (lit_cbor(
            l,
        ) matches Ok(x) ==> (x matches CborTree::Mapping(entries) && forall|i: int|
            0 <= i < items.len() && (forall|j: int|
                i < j < items.len() ==> (#[trigger] items[j]).0 != items[i].0) ==> (
            #[trigger] lit_cbor(items[i].1) matches Ok(v) && text_entry(entries, items[i].0)
                == Some(v)))),
        l matches LitTree::Variant(tag, None) ==> (lit_cbor(l) matches Ok(
            CborTree::Mapping(entries),
        ) && text_entry(entries, tag) == Some(CborTree::Null)),
        l matches LitTree::Variant(tag, Some(inner)) ==> (lit_cbor(l) is Ok <==> lit_cbor(*inner)
            is Ok) && (lit_cbor(*inner) matches Ok(v) ==> (lit_cbor(l) matches Ok(
            CborTree::Mapping(entries),
        ) && text_entry(entries, tag) == Some(v))),
{
    if let LitTree::List(items) = l {
        lemma_lits_at(items, items.len());
    }
    if let LitTree::SetOf(items) = l {
        lemma_lits_at(items, items.len());
    }
    if let LitTree::Mapping(items) = l {
        lemma_lit_entries_at(items, items.len());
        if let Ok(s) = lit_entries_cbor(items, items.len()) {
            assert(lit_cbor(l) == Ok::<CborTree, Seq<char>>(CborTree::Mapping(outer_sorted(s))));
        }
    }
    if let LitTree::Record(items) = l {
        lemma_lit_fields_at(items, items.len());
        if let Ok(s) = lit_fields_cbor(items, items.len()) {
            assert forall|i: int|
                0 <= i < items.len() && (forall|j: int|
                    i < j < items.len() ==> (#[trigger] items[j]).0 != items[i].0) implies (
            #[trigger] lit_cbor(items[i].1) matches Ok(v) && text_entry(text_map(s), items[i].0)
                == Some(v)) by {
                assert(s[i].0 == items[i].0);
                assert forall|j: int| i < j < s.len() implies (#[trigger] s[j]).0 != s[i].0 by {
                    assert(items[j].0 != items[i].0);
                }
                lemma_text_map_has(s, i);
            }
        }
    }
    if let LitTree::Variant(tag, value) = l {
        match value {
            None => {
                let s: Seq<Field> = seq![(tag, CborTree::Null)];
                assert(s[0].0 == tag);
                lemma_text_map_has(s, 0);
            },
            Some(inner) => {
                if let Ok(v) = lit_cbor(*inner) {
                    let s: Seq<Field> = seq![(tag, v)];
                    assert(s[0].0 == tag);
                    lemma_text_map_has(s, 0);
                }
            },
        }
    }
}

/// Whether a result is the array of literals, where all of them can be written.
pub open spec fn is_written(r: Result<CborTree, Seq<char>>, items: Seq<LitTree>) -> bool {
    &&& r is Ok <==> forall|i: int| 0 <= i < items.len() ==> lit_cbor(#[trigger] items[i]) is Ok
    &&& r matches Ok(x) ==> {
        &&& x matches CborTree::Array(out)
        &&& out.len() == items.len()
        &&& forall|i: int|
            0 <= i < items.len() ==> lit_cbor(items[i]) == Ok::<CborTree, Seq<char>>(
                #[trigger] out[i],
            )
    }
}

/// A grant is the only one of a type if and only if no other grant has that type: there are never
/// two that are.
pub proof fn lemma_only_grant_stands_alone(
    grants: Map<Seq<char>, ResolvedTree>,
    cap_type: Seq<char>,
    a: Seq<char>,
    b: Seq<char>,
)
    ensures
        only_grant(grants, cap_type, a) ==> grants.contains_key(a) && grants[a].cap_type == cap_type,
        only_grant(grants, cap_type, a) && only_grant(grants, cap_type, b) ==> a == b,
        a != b && grants.contains_key(a) && grants[a].cap_type == cap_type && grants.contains_key(b)
            && grants[b].cap_type == cap_type ==> !only_grant(grants, cap_type, a),
        grants.contains_key(a) && grants[a].cap_type == cap_type && (forall|other: Seq<char>|
            #[trigger] grants.contains_key(other) && other != a ==> grants[other].cap_type
                != cap_type) ==> only_grant(grants, cap_type, a),
{
}

} // verus!
