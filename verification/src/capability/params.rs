//! Params of capabilities, and the grants that a manifest makes.
use vstd::prelude::*;

use crate::capability::expand::{can_expand, can_expand_schema, expand_cap_schema, expansion};
use crate::capability::{resolve_with, resolved_tree, resolved_view, catalog_view,
    lemma_resolved_insert, CapGrantResolution, CapabilityGrant, CapabilityResolver, GrantTree,
    ResolvedTree};
use crate::cbor::{comparable, drawn_from, entry_trees, keys_of, lemma_array_tree, lemma_map_tree,
    outer_sorted, sort_entries, trees, writable, CborTree, CborValue};
use crate::cbor_map::{lemma_text_map, text_map, Field, FieldMap};
use crate::codec::{base64_decode, base64_parsed};
use crate::error::KernelError;
use crate::literal::{lemma_literal_tree, lit_entry_trees, lit_trees, LitTree, ValueLiteral};
use crate::names::NameMap;
use crate::value::field_trees;
use crate::types::{index_trees, SchemaIndex, TypeExpr, TypeTree};

verus! {

/// What the encoding of a reference to a secret is answered.
pub open spec fn secret_refused() -> Seq<char> {
    "secret_ref literals are not supported in capability params"@
}

/// The CBOR form of a literal, or the text of the error.
pub open spec fn lit_cbor(l: LitTree) -> Result<CborTree, Seq<char>>
    decreases l, 0nat,
{
    match l {
        LitTree::Null => Ok(CborTree::Null),
        LitTree::Bool(b) => Ok(CborTree::Bool(b)),
        LitTree::Int(i) => Ok(CborTree::Integer(i as i128)),
        LitTree::Nat(n) => Ok(CborTree::Integer(n as i128)),
        LitTree::Dec128(t) => Ok(CborTree::Text(t)),
        LitTree::Bytes(t) => match base64_parsed(t) {
            Ok(b) => Ok(CborTree::Bytes(b)),
            Err(e) => Err(e),
        },
        LitTree::Text(t) => Ok(CborTree::Text(t)),
        LitTree::TimeNs(n) => Ok(CborTree::Integer(n as i128)),
        LitTree::DurationNs(i) => Ok(CborTree::Integer(i as i128)),
        LitTree::Hash(t) => Ok(CborTree::Text(t)),
        LitTree::Uuid(t) => Ok(CborTree::Text(t)),
        LitTree::List(items) => match lits_cbor(items, items.len()) {
            Ok(s) => Ok(CborTree::Array(s)),
            Err(e) => Err(e),
        },
        LitTree::SetOf(items) => match lits_cbor(items, items.len()) {
            Ok(s) => Ok(CborTree::Array(s)),
            Err(e) => Err(e),
        },
        LitTree::Mapping(items) => match lit_entries_cbor(items, items.len()) {
            Ok(s) => Ok(CborTree::Mapping(outer_sorted(s))),
            Err(e) => Err(e),
        },
        LitTree::SecretRef(_, _) => Err(secret_refused()),
        LitTree::Record(items) => match lit_fields_cbor(items, items.len()) {
            Ok(s) => Ok(CborTree::Mapping(text_map(s))),
            Err(e) => Err(e),
        },
        LitTree::Variant(tag, value) => match value {
            None => Ok(CborTree::Mapping(text_map(seq![(tag, CborTree::Null)]))),
            Some(inner) => match lit_cbor(*inner) {
                Ok(v) => Ok(CborTree::Mapping(text_map(seq![(tag, v)]))),
                Err(e) => Err(e),
            },
        },
    }
}

pub open spec fn lits_cbor(items: Seq<LitTree>, n: nat) -> Result<Seq<CborTree>, Seq<char>>
    decreases items, n,
{
    if n == 0 || n > items.len() {
        Ok(Seq::empty())
    } else {
        match lits_cbor(items, (n - 1) as nat) {
            Err(e) => Err(e),
            Ok(done) => match lit_cbor(items[n - 1]) {
                Err(e) => Err(e),
                Ok(v) => Ok(done.push(v)),
            },
        }
    }
}

pub open spec fn lit_entries_cbor(items: Seq<(LitTree, LitTree)>, n: nat) -> Result<
    Seq<(CborTree, CborTree)>,
    Seq<char>,
>
    decreases items, n,
{
    if n == 0 || n > items.len() {
        Ok(Seq::empty())
    } else {
        match lit_entries_cbor(items, (n - 1) as nat) {
            Err(e) => Err(e),
            Ok(done) => match lit_cbor(items[n - 1].0) {
                Err(e) => Err(e),
                Ok(k) => match lit_cbor(items[n - 1].1) {
                    Err(e) => Err(e),
                    Ok(v) => Ok(done.push((k, v))),
                },
            },
        }
    }
}

pub open spec fn lit_fields_cbor(items: Seq<(Seq<char>, LitTree)>, n: nat) -> Result<
    Seq<Field>,
    Seq<char>,
>
    decreases items, n,
{
    if n == 0 || n > items.len() {
        Ok(Seq::empty())
    } else {
        match lit_fields_cbor(items, (n - 1) as nat) {
            Err(e) => Err(e),
            Ok(done) => match lit_cbor(items[n - 1].1) {
                Err(e) => Err(e),
                Ok(v) => Ok(done.push((items[n - 1].0, v))),
            },
        }
    }
}

proof fn lemma_lits_fault(items: Seq<LitTree>, n: nat, k: nat)
    requires
        n <= k <= items.len(),
        lits_cbor(items, n) is Err,
    ensures
        lits_cbor(items, k) == lits_cbor(items, n),
    decreases k,
{
    if n < k {
        lemma_lits_fault(items, n, (k - 1) as nat);
    }
}

proof fn lemma_entries_fault(items: Seq<(LitTree, LitTree)>, n: nat, k: nat)
    requires
        n <= k <= items.len(),
        lit_entries_cbor(items, n) is Err,
    ensures
        lit_entries_cbor(items, k) == lit_entries_cbor(items, n),
    decreases k,
{
    if n < k {
        lemma_entries_fault(items, n, (k - 1) as nat);
    }
}

proof fn lemma_fields_fault(items: Seq<(Seq<char>, LitTree)>, n: nat, k: nat)
    requires
        n <= k <= items.len(),
        lit_fields_cbor(items, n) is Err,
    ensures
        lit_fields_cbor(items, k) == lit_fields_cbor(items, n),
    decreases k,
{
    if n < k {
        lemma_fields_fault(items, n, (k - 1) as nat);
    }
}

/// Whether a value can be written and compared.
pub open spec fn sound(t: CborTree) -> bool {
    writable(t) && comparable(t)
}

proof fn lemma_array_sound(items: Seq<CborTree>)
    requires
        forall|i: int| 0 <= i < items.len() ==> sound(#[trigger] items[i]),
    ensures
        sound(CborTree::Array(items)),
{
}

proof fn lemma_fields_sound(fields: Seq<Field>)
    requires
        forall|i: int| 0 <= i < fields.len() ==> sound((#[trigger] fields[i]).1),
    ensures
        sound(CborTree::Mapping(text_map(fields))),
{
    lemma_text_map(fields);
    let m = text_map(fields);
    assert forall|i: int| 0 <= i < m.len() implies sound((#[trigger] m[i]).0) && sound(
        m[i].1,
    ) by {
        assert(crate::cbor::is_plain_key(keys_of(m)[i]));
        let k = choose|k: int| 0 <= k < fields.len() && m[i].1 == (#[trigger] fields[k]).1;
        assert(sound(fields[k].1));
    }
}

proof fn lemma_sorted_sound(entries: Seq<(CborTree, CborTree)>, sorted: Seq<(CborTree, CborTree)>)
    requires
        forall|i: int|
            0 <= i < entries.len() ==> sound((#[trigger] entries[i]).0) && sound(entries[i].1),
        drawn_from(sorted, entries),
        crate::cbor::outer_order(keys_of(sorted)),
    ensures
        sound(CborTree::Mapping(sorted)),
{
    assert forall|i: int| 0 <= i < sorted.len() implies sound((#[trigger] sorted[i]).0) && sound(
        sorted[i].1,
    ) by {
        let j = choose|j: int| 0 <= j < entries.len() && (#[trigger] entries[j]).0 == sorted[i].0;
        let k = choose|k: int| 0 <= k < entries.len() && (#[trigger] entries[k]).1 == sorted[i].1;
        assert(sound(entries[j].0) && sound(entries[k].1));
    }
}

fn literals_to_cbor(items: &Vec<ValueLiteral>) -> (r: Result<Vec<CborValue>, String>)
    ensures
        match (r, lits_cbor(lit_trees(items@), items@.len())) {
            (Ok(v), Ok(s)) => trees(v@) == s && forall|i: int|
                0 <= i < s.len() ==> sound(#[trigger] s[i]),
            (Err(e), Err(t)) => e@ == t,
            _ => false,
        },
    decreases items, 0nat,
{
    let ghost all = lit_trees(items@);
    let mut out: Vec<CborValue> = Vec::new();
    let mut i: usize = 0;
    assert(trees(out@) =~= Seq::empty());
    while i < items.len()
        invariant
            i <= items@.len(),
            all == lit_trees(items@),
            lits_cbor(all, i as nat) == Ok::<_, Seq<char>>(trees(out@)),
            forall|k: int| 0 <= k < out@.len() ==> sound(#[trigger] trees(out@)[k]),
        decreases items@.len() - i,
    {
        assert(decreases_to!(items => items@[i as int]));
        assert(all[i as int] == items@[i as int]@);
        match literal_to_cbor_value(&items[i]) {
            Ok(v) => {
                let ghost before = out@;
                out.push(v);
                assert(trees(out@) =~= trees(before).push(v@));
            },
            Err(e) => {
                proof {
                    lemma_lits_fault(all, (i + 1) as nat, all.len());
                }
                return Err(e);
            },
        }
        i += 1;
    }
    Ok(out)
}

/// The CBOR form of a literal, or what stands against it.
pub fn literal_to_cbor_value(value: &ValueLiteral) -> (r: Result<CborValue, String>)
    ensures
        match (r, lit_cbor(value@)) {
            (Ok(v), Ok(t)) => v@ == t && sound(t),
            (Err(e), Err(t)) => e@ == t,
            _ => false,
        },
    decreases value, 1nat,
{
    broadcast use lemma_literal_tree;

    match value {
        ValueLiteral::Null => Ok(CborValue::Null),
        ValueLiteral::Bool(b) => Ok(CborValue::Bool(*b)),
        ValueLiteral::Int(i) => Ok(CborValue::Integer(*i as i128)),
        ValueLiteral::Nat(n) => Ok(CborValue::Integer(*n as i128)),
        ValueLiteral::Dec128(t) => Ok(CborValue::Text(t.clone())),
        ValueLiteral::Bytes(t) => match base64_decode(t.as_str()) {
            Ok(b) => Ok(CborValue::Bytes(b)),
            Err(e) => Err(e),
        },
        ValueLiteral::Text(t) => Ok(CborValue::Text(t.clone())),
        ValueLiteral::TimeNs(n) => Ok(CborValue::Integer(*n as i128)),
        ValueLiteral::DurationNs(i) => Ok(CborValue::Integer(*i as i128)),
        ValueLiteral::Hash(h) => Ok(CborValue::Text(h.as_str().to_owned())),
        ValueLiteral::Uuid(t) => Ok(CborValue::Text(t.clone())),
        ValueLiteral::List(items) => match literals_to_cbor(items) {
            Ok(v) => {
                let r = CborValue::Array(v);
                proof {
                    lemma_array_tree(r);
                    lemma_array_sound(trees(v@));
                }
                Ok(r)
            },
            Err(e) => Err(e),
        },
        ValueLiteral::SetOf(items) => match literals_to_cbor(items) {
            Ok(v) => {
                let r = CborValue::Array(v);
                proof {
                    lemma_array_tree(r);
                    lemma_array_sound(trees(v@));
                }
                Ok(r)
            },
            Err(e) => Err(e),
        },
        ValueLiteral::Mapping(items) => {
            let ghost all = lit_entry_trees(items@);
            let mut out: Vec<(CborValue, CborValue)> = Vec::new();
            let mut i: usize = 0;
            assert(entry_trees(out@) =~= Seq::empty());
            while i < items.len()
                invariant
                    i <= items@.len(),
                    *value == ValueLiteral::Mapping(*items),
                    value@ == LitTree::Mapping(all),
                    all == lit_entry_trees(items@),
                    lit_entries_cbor(all, i as nat) == Ok::<_, Seq<char>>(entry_trees(out@)),
                    forall|k: int|
                        0 <= k < out@.len() ==> sound((#[trigger] out@[k]).0@) && sound(
                            out@[k].1@,
                        ),
                decreases items@.len() - i,
            {
                assert(value->Mapping_0@[i as int] == items@[i as int]);
                assert(all[i as int] == (items@[i as int].0@, items@[i as int].1@));
                let key = match literal_to_cbor_value(&items[i].0) {
                    Ok(k) => k,
                    Err(e) => {
                        proof {
                            lemma_entries_fault(all, (i + 1) as nat, all.len());
                        }
                        return Err(e);
                    },
                };
                match literal_to_cbor_value(&items[i].1) {
                    Ok(v) => {
                        let ghost before = out@;
                        out.push((key, v));
                        assert(entry_trees(out@) =~= entry_trees(before).push((key@, v@)));
                    },
                    Err(e) => {
                        proof {
                            lemma_entries_fault(all, (i + 1) as nat, all.len());
                        }
                        return Err(e);
                    },
                }
                i += 1;
            }
            let sorted = sort_entries(&out);
            let r = CborValue::Mapping(sorted);
            proof {
                lemma_map_tree(r);
                let given = entry_trees(out@);
                assert forall|k: int| 0 <= k < given.len() implies sound((#[trigger] given[k]).0)
                    && sound(given[k].1) by {
                    assert(given[k] == (out@[k].0@, out@[k].1@));
                }
                lemma_sorted_sound(given, entry_trees(sorted@));
            }
            Ok(r)
        },
        ValueLiteral::SecretRef(_, _) => Err(
            "secret_ref literals are not supported in capability params".to_owned(),
        ),
        ValueLiteral::Record(items) => {
            let ghost all = field_trees(items@);
            let mut f = FieldMap::new();
            let mut i: usize = 0;
            while i < items.len()
                invariant
                    i <= items@.len(),
                    *value == ValueLiteral::Record(*items),
                    value@ == LitTree::Record(all),
                    all == field_trees(items@),
                    f.wf(),
                    lit_fields_cbor(all, i as nat) == Ok::<_, Seq<char>>(f.fields@),
                    forall|k: int| 0 <= k < f.fields@.len() ==> sound((#[trigger] f.fields@[k]).1),
                decreases items@.len() - i,
            {
                assert(value->Record_0@[i as int] == items@[i as int]);
                assert(all[i as int] == (items@[i as int].0@, items@[i as int].1@));
                match literal_to_cbor_value(&items[i].1) {
                    Ok(v) => {
                        f.put(items[i].0.as_str(), v);
                    },
                    Err(e) => {
                        proof {
                            lemma_fields_fault(all, (i + 1) as nat, all.len());
                        }
                        return Err(e);
                    },
                }
                i += 1;
            }
            proof {
                lemma_fields_sound(f.fields@);
            }
            Ok(f.finish())
        },
        ValueLiteral::Variant(tag, inner) => {
            let v = match inner {
                Some(x) => match literal_to_cbor_value(x) {
                    Ok(v) => v,
                    Err(e) => {
                        return Err(e);
                    },
                },
                None => CborValue::Null,
            };
            let ghost field = (tag@, v@);
            let mut f = FieldMap::new();
            f.put(tag.as_str(), v);
            proof {
                assert(f.fields@ =~= seq![field]);
                lemma_fields_sound(seq![field]);
            }
            Ok(f.finish())
        },
    }
}

/// A capability as a manifest defines it.
#[derive(Debug)]
pub struct DefCap {
    pub name: String,
    pub cap_type: String,
    pub schema: TypeExpr,
    pub enforcer: String,
}

/// A grant as a manifest makes it.
#[derive(Debug)]
pub struct CapGrant {
    pub name: String,
    pub cap: String,
    pub params: ValueLiteral,
    pub expiry_ns: Option<u64>,
}

/// The model of a definition.
pub struct DefTree {
    pub name: Seq<char>,
    pub cap_type: Seq<char>,
    pub schema: TypeTree,
    pub enforcer: Seq<char>,
}

/// The model of a grant of a manifest.
pub struct CapGrantTree {
    pub name: Seq<char>,
    pub cap: Seq<char>,
    pub params: LitTree,
    pub expiry_ns: Option<u64>,
}

impl View for DefCap {
    type V = DefTree;

    open spec fn view(&self) -> DefTree {
        DefTree {
            name: self.name@,
            cap_type: self.cap_type@,
            schema: self.schema.tree(),
            enforcer: self.enforcer@,
        }
    }
}

impl View for CapGrant {
    type V = CapGrantTree;

    open spec fn view(&self) -> CapGrantTree {
        CapGrantTree {
            name: self.name@,
            cap: self.cap@,
            params: self.params@,
            expiry_ns: self.expiry_ns,
        }
    }
}

pub open spec fn grants_tree(s: Seq<CapGrant>) -> Seq<CapGrantTree> {
    Seq::new(s.len(), |i: int| s[i]@)
}

pub open spec fn defs_tree(m: Map<Seq<char>, DefCap>) -> Map<Seq<char>, DefTree> {
    m.map_values(|d: DefCap| d@)
}

/// What checks params against a schema and puts them into their canonical form.
pub trait ParamCodec {
    /// Whether params have the form that a schema asks for; else what is wrong with them.
    fn validate(&self, params: &ValueLiteral, schema: &TypeExpr) -> Result<(), String>;

    /// The canonical encoding of a value under a schema, or why there is none.
    fn normalize(&self, value: &CborValue, schema: &TypeExpr) -> Result<Vec<u8>, String>;
}

/// What a codec said of one grant.
pub struct CodecAnswer {
    pub validated: Result<(), Seq<char>>,
    pub normalized: Result<Seq<u8>, Seq<char>>,
}

/// Why a grant of a manifest is not made.
pub enum GrantFault {
    Duplicate(Seq<char>),
    NoDefinition(Seq<char>),
    Schema(Seq<char>),
    Invalid { grant: Seq<char>, cap: Seq<char>, reason: Seq<char> },
    Encoding(Seq<char>),
}

/// Whether an error is such a fault.
pub open spec fn is_grant_fault(e: KernelError, f: GrantFault) -> bool {
    match (e, f) {
        (KernelError::DuplicateCapabilityGrant(a), GrantFault::Duplicate(b)) => a@ == b,
        (KernelError::CapabilityDefinitionNotFound(a), GrantFault::NoDefinition(b)) => a@ == b,
        (KernelError::Manifest(a), GrantFault::Schema(b)) => a@ == b,
        (
            KernelError::CapabilityParamInvalid { grant, cap, reason },
            GrantFault::Invalid { grant: g, cap: c, reason: r },
        ) => grant@ == g && cap@ == c && reason@ == r,
        (KernelError::CapabilityEncoding(a), GrantFault::Encoding(b)) => a@ == b,
        _ => false,
    }
}

/// A grant of a manifest, by its definition and by what the codec says of its params.
pub open spec fn made_grant(
    grant: CapGrantTree,
    caps: Map<Seq<char>, DefTree>,
    schemas: Map<Seq<char>, TypeTree>,
    answer: CodecAnswer,
) -> Result<ResolvedTree, GrantFault> {
    if !caps.contains_key(grant.cap) {
        Err(GrantFault::NoDefinition(grant.cap))
    } else {
        let def = caps[grant.cap];
        match expansion(schemas, def.schema, def.name) {
            Err(e) => Err(GrantFault::Schema(e)),
            Ok(_) => match answer.validated {
                Err(reason) => Err(
                    GrantFault::Invalid { grant: grant.name, cap: grant.cap, reason },
                ),
                Ok(_) => match lit_cbor(grant.params) {
                    Err(e) => Err(GrantFault::Encoding(e)),
                    Ok(_) => match answer.normalized {
                        Err(e) => Err(GrantFault::Encoding(e)),
                        Ok(params) => Ok(
                            resolved_tree(
                                GrantTree {
                                    name: grant.name,
                                    cap: grant.cap,
                                    params,
                                    expiry_ns: grant.expiry_ns,
                                },
                                def.cap_type,
                                def.enforcer,
                            ),
                        ),
                    },
                },
            },
        }
    }
}

/// The table of the first `n` grants of a manifest.
pub open spec fn made_grants(
    grants: Seq<CapGrantTree>,
    caps: Map<Seq<char>, DefTree>,
    schemas: Map<Seq<char>, TypeTree>,
    answers: Seq<CodecAnswer>,
    n: nat,
) -> Result<Map<Seq<char>, ResolvedTree>, GrantFault>
    decreases n,
{
    if n == 0 || n > grants.len() {
        Ok(Map::empty())
    } else {
        match made_grants(grants, caps, schemas, answers, (n - 1) as nat) {
            Err(f) => Err(f),
            Ok(done) => {
                let g = grants[n - 1];
                if done.contains_key(g.name) {
                    Err(GrantFault::Duplicate(g.name))
                } else {
                    match made_grant(g, caps, schemas, answers[n - 1]) {
                        Err(f) => Err(f),
                        Ok(x) => Ok(done.insert(g.name, x)),
                    }
                }
            },
        }
    }
}

proof fn lemma_made_fault(
    grants: Seq<CapGrantTree>,
    caps: Map<Seq<char>, DefTree>,
    schemas: Map<Seq<char>, TypeTree>,
    answers: Seq<CodecAnswer>,
    n: nat,
    k: nat,
)
    requires
        n <= k <= grants.len(),
        made_grants(grants, caps, schemas, answers, n) is Err,
    ensures
        made_grants(grants, caps, schemas, answers, k) == made_grants(
            grants,
            caps,
            schemas,
            answers,
            n,
        ),
    decreases k,
{
    if n < k {
        lemma_made_fault(grants, caps, schemas, answers, n, (k - 1) as nat);
    }
}

proof fn lemma_made_prefix(
    grants: Seq<CapGrantTree>,
    caps: Map<Seq<char>, DefTree>,
    schemas: Map<Seq<char>, TypeTree>,
    a: Seq<CodecAnswer>,
    b: Seq<CodecAnswer>,
    n: nat,
)
    requires
        n <= a.len(),
        n <= b.len(),
        forall|i: int| 0 <= i < n ==> a[i] == b[i],
    ensures
        made_grants(grants, caps, schemas, a, n) == made_grants(grants, caps, schemas, b, n),
    decreases n,
{
    if n > 0 {
        lemma_made_prefix(grants, caps, schemas, a, b, (n - 1) as nat);
    }
}

/// The model of whether params fit.
pub open spec fn validation(told: Result<(), String>) -> Result<(), Seq<char>> {
    match told {
        Ok(_) => Ok(()),
        Err(e) => Err(e@),
    }
}

/// The model of an encoding.
pub open spec fn encoding_told(told: Result<Vec<u8>, String>) -> Result<Seq<u8>, Seq<char>> {
    match told {
        Ok(b) => Ok(b@),
        Err(e) => Err(e@),
    }
}

/// The model of what a codec said.
pub open spec fn answer_tree(
    validated: Result<(), String>,
    normalized: Result<Vec<u8>, String>,
) -> CodecAnswer {
    CodecAnswer { validated: validation(validated), normalized: encoding_told(normalized) }
}

/// Whether an answer is what the codec says of the params of a grant, under the schema of its
/// definition with the references expanded; what they are in canonical form is asked only of params
/// that fit and can be written.
pub open spec fn codec_asked<C: ParamCodec>(
    codec: &C,
    grant: CapGrantTree,
    caps: Map<Seq<char>, DefTree>,
    schemas: Map<Seq<char>, TypeTree>,
    answer: CodecAnswer,
) -> bool {
    let def = caps[grant.cap];
    caps.contains_key(grant.cap) && expansion(schemas, def.schema, def.name) is Ok ==> {
        let schema = expansion(schemas, def.schema, def.name)->Ok_0;
        &&& exists|p: &ValueLiteral, t: &TypeExpr, told: Result<(), String>|
            p@ == grant.params && t.tree() == schema && #[trigger] call_ensures(
                C::validate,
                (codec, p, t),
                told,
            ) && answer.validated == validation(told)
        &&& answer.validated is Ok && lit_cbor(grant.params) is Ok ==> exists|
            v: &CborValue,
            t: &TypeExpr,
            told: Result<Vec<u8>, String>,
        |
            Ok::<CborTree, Seq<char>>(v@) == lit_cbor(grant.params) && t.tree() == schema
                && #[trigger] call_ensures(C::normalize, (codec, v, t), told) && answer.normalized
                == encoding_told(told)
    }
}

/// The grant that a definition makes of a grant of a manifest, once its params have been checked
/// and encoded.
pub fn settle_grant(
    grant: &CapGrant,
    def: &DefCap,
    validated: Result<(), String>,
    normalized: Result<Vec<u8>, String>,
) -> (r: Result<CapGrantResolution, KernelError>)
    ensures
        match validated {
            Err(reason) => r matches Err(e) && is_grant_fault(
                e,
                GrantFault::Invalid { grant: grant.name@, cap: grant.cap@, reason: reason@ },
            ),
            Ok(_) => match normalized {
                Err(t) => r matches Err(e) && is_grant_fault(e, GrantFault::Encoding(t@)),
                Ok(params) => r matches Ok(g) && g@ == resolved_tree(
                    GrantTree {
                        name: grant.name@,
                        cap: grant.cap@,
                        params: params@,
                        expiry_ns: grant.expiry_ns,
                    },
                    def.cap_type@,
                    def.enforcer@,
                ),
            },
        },
{
    match validated {
        Err(reason) => Err(
            KernelError::CapabilityParamInvalid {
                grant: grant.name.clone(),
                cap: grant.cap.clone(),
                reason,
            },
        ),
        Ok(_) => match normalized {
            Err(t) => Err(KernelError::CapabilityEncoding(t)),
            Ok(params_cbor) => {
                let capability_grant = CapabilityGrant {
                    name: grant.name.clone(),
                    cap: grant.cap.clone(),
                    params_cbor,
                    expiry_ns: grant.expiry_ns,
                };
                Ok(resolve_with(capability_grant, def.cap_type.clone(), def.enforcer.clone()))
            },
        },
    }
}

/// Whether the references in the schema of the capability of a grant can be filled in.
pub open spec fn grant_expands(
    grant: CapGrantTree,
    caps: Map<Seq<char>, DefTree>,
    schemas: Map<Seq<char>, TypeTree>,
) -> bool {
    caps.contains_key(grant.cap) ==> can_expand(schemas, caps[grant.cap].schema)
}

/// Whether those of all grants can be filled in.
pub open spec fn grants_expand(
    grants: Seq<CapGrantTree>,
    caps: Map<Seq<char>, DefTree>,
    schemas: Map<Seq<char>, TypeTree>,
) -> bool {
    forall|i: int| 0 <= i < grants.len() ==> grant_expands(#[trigger] grants[i], caps, schemas)
}

/// Whether the references in the schemas of the capabilities of grants can be filled in.
pub fn grants_can_expand(
    cap_grants: &Vec<CapGrant>,
    caps: &NameMap<DefCap>,
    schema_index: &SchemaIndex,
) -> (r: bool)
    ensures
        r == grants_expand(
            grants_tree(cap_grants@),
            defs_tree(caps.map()),
            index_trees(schema_index.map()),
        ),
{
    let ghost all = grants_tree(cap_grants@);
    let ghost defs = defs_tree(caps.map());
    let ghost schemas = index_trees(schema_index.map());
    let mut i: usize = 0;
    while i < cap_grants.len()
        invariant
            i <= cap_grants@.len(),
            all == grants_tree(cap_grants@),
            defs == defs_tree(caps.map()),
            schemas == index_trees(schema_index.map()),
            forall|k: int| 0 <= k < i ==> grant_expands(#[trigger] all[k], defs, schemas),
        decreases cap_grants@.len() - i,
    {
        assert(all[i as int] == cap_grants@[i as int]@);
        if let Some(def) = caps.get(cap_grants[i].cap.as_str()) {
            if !can_expand_schema(&def.schema, schema_index) {
                assert(!grant_expands(all[i as int], defs, schemas));
                return false;
            }
        }
        i += 1;
    }
    true
}

/// A grant of a manifest.
fn resolve_grant<C: ParamCodec>(
    grant: &CapGrant,
    caps: &NameMap<DefCap>,
    schema_index: &SchemaIndex,
    codec: &C,
) -> (r: (Result<CapGrantResolution, KernelError>, Ghost<CodecAnswer>))
    requires
        grant_expands(grant@, defs_tree(caps.map()), index_trees(schema_index.map())),
    ensures
        match (
            r.0,
            made_grant(
                grant@,
                defs_tree(caps.map()),
                index_trees(schema_index.map()),
                r.1@,
            ),
        ) {
            (Ok(g), Ok(t)) => g@ == t,
            (Err(e), Err(f)) => is_grant_fault(e, f),
            _ => false,
        },
        codec_asked(codec, grant@, defs_tree(caps.map()), index_trees(schema_index.map()), r.1@),
{
    let ghost none = CodecAnswer { validated: Ok(()), normalized: Ok(Seq::empty()) };
    let def = match caps.get(grant.cap.as_str()) {
        Some(d) => d,
        None => {
            return (
                Err(KernelError::CapabilityDefinitionNotFound(grant.cap.clone())),
                Ghost(none),
            );
        },
    };
    let schema = match expand_cap_schema(&def.schema, schema_index, def.name.as_str()) {
        Ok(t) => t,
        Err(e) => {
            return (Err(e), Ghost(none));
        },
    };
    let validated = codec.validate(&grant.params, &schema);
    assert(call_ensures(C::validate, (codec, &grant.params, &schema), validated));
    if validated.is_err() {
        let none_yet: Result<Vec<u8>, String> = Ok(Vec::new());
        let ghost answer = answer_tree(validated, none_yet);
        return (settle_grant(grant, def, validated, none_yet), Ghost(answer));
    }
    let value = match literal_to_cbor_value(&grant.params) {
        Ok(v) => v,
        Err(e) => {
            return (Err(KernelError::CapabilityEncoding(e)), Ghost(none));
        },
    };
    let normalized = codec.normalize(&value, &schema);
    assert(call_ensures(C::normalize, (codec, &value, &schema), normalized));
    let ghost answer = answer_tree(validated, normalized);
    (settle_grant(grant, def, validated, normalized), Ghost(answer))
}

/// Whether the codec was asked of every grant that was reached: each one up to the first that is
/// not made, unless its name was taken.
pub open spec fn all_asked<C: ParamCodec>(
    codec: &C,
    grants: Seq<CapGrantTree>,
    caps: Map<Seq<char>, DefTree>,
    schemas: Map<Seq<char>, TypeTree>,
    answers: Seq<CodecAnswer>,
) -> bool {
    forall|i: int|
        0 <= i < grants.len() ==> match #[trigger] made_grants(
            grants,
            caps,
            schemas,
            answers,
            i as nat,
        ) {
            Err(_) => true,
            Ok(done) => done.contains_key(grants[i].name) || codec_asked(
                codec,
                grants[i],
                caps,
                schemas,
                answers[i],
            ),
        }
}

proof fn lemma_all_asked<C: ParamCodec>(
    codec: &C,
    grants: Seq<CapGrantTree>,
    caps: Map<Seq<char>, DefTree>,
    schemas: Map<Seq<char>, TypeTree>,
    answers: Seq<CodecAnswer>,
    n: nat,
)
    requires
        n <= grants.len(),
        n <= answers.len(),
        forall|k: int|
            0 <= k < n ==> codec_asked(codec, grants[k], caps, schemas, #[trigger] answers[k]),
        n == grants.len() || match made_grants(grants, caps, schemas, answers, n) {
            Err(_) => true,
            Ok(done) => done.contains_key(grants[n as int].name),
        },
    ensures
        all_asked(codec, grants, caps, schemas, answers),
{
    assert forall|i: int| 0 <= i < grants.len() implies match #[trigger] made_grants(
        grants,
        caps,
        schemas,
        answers,
        i as nat,
    ) {
        Err(_) => true,
        Ok(done) => done.contains_key(grants[i].name) || codec_asked(
            codec,
            grants[i],
            caps,
            schemas,
            answers[i],
        ),
    } by {
        if i < n {
            assert(codec_asked(codec, grants[i], caps, schemas, answers[i]));
        } else if made_grants(grants, caps, schemas, answers, n) is Err {
            lemma_made_fault(grants, caps, schemas, answers, n, i as nat);
        } else if i > n {
            assert(made_grants(grants, caps, schemas, answers, (n + 1) as nat) is Err);
            lemma_made_fault(grants, caps, schemas, answers, (n + 1) as nat, i as nat);
        }
    }
}

impl CapabilityResolver {
    /// A resolver for the grants that a manifest makes by default. The codec decides whether
    /// params fit and how they are encoded; everything else follows from what it says.
    pub fn from_manifest<C: ParamCodec>(
        cap_grants: &Vec<CapGrant>,
        caps: &NameMap<DefCap>,
        schema_index: &SchemaIndex,
        effect_catalog: NameMap<String>,
        codec: &C,
    ) -> (r: Result<Self, KernelError>)
        requires
            grants_expand(
                grants_tree(cap_grants@),
                defs_tree(caps.map()),
                index_trees(schema_index.map()),
            ),
        ensures
            r matches Ok(x) ==> x.catalog() == catalog_view(effect_catalog.map()),
            exists|answers: Seq<CodecAnswer>|
                all_asked(
                    codec,
                    grants_tree(cap_grants@),
                    defs_tree(caps.map()),
                    index_trees(schema_index.map()),
                    answers,
                ) && match (
                    r,
                    #[trigger] made_grants(
                        grants_tree(cap_grants@),
                        defs_tree(caps.map()),
                        index_trees(schema_index.map()),
                        answers,
                        cap_grants@.len(),
                    ),
                ) {
                    (Ok(x), Ok(t)) => x.table() == t,
                    (Err(e), Err(f)) => is_grant_fault(e, f),
                    _ => false,
                },
    {
        let ghost all = grants_tree(cap_grants@);
        let ghost defs = defs_tree(caps.map());
        let ghost schemas = index_trees(schema_index.map());
        let ghost mut answers: Seq<CodecAnswer> = Seq::empty();
        let mut table: NameMap<CapGrantResolution> = NameMap::new();
        let mut i: usize = 0;
        assert(resolved_view(table.map()) =~= Map::empty());
        while i < cap_grants.len()
            invariant
                i <= cap_grants@.len(),
                all == grants_tree(cap_grants@),
                defs == defs_tree(caps.map()),
                schemas == index_trees(schema_index.map()),
                grants_expand(all, defs, schemas),
                answers.len() == i,
                forall|k: int|
                    0 <= k < i ==> codec_asked(codec, all[k], defs, schemas, #[trigger] answers[k]),
                made_grants(all, defs, schemas, answers, i as nat) == Ok::<_, GrantFault>(
                    resolved_view(table.map()),
                ),
            decreases cap_grants@.len() - i,
        {
            let grant = &cap_grants[i];
            let ghost before = answers;
            assert(all[i as int] == grant@);
            if table.contains_key(grant.name.as_str()) {
                proof {
                    lemma_made_fault(
                        all,
                        defs,
                        schemas,
                        answers,
                        (i + 1) as nat,
                        all.len(),
                    );
                    lemma_all_asked(codec, all, defs, schemas, answers, i as nat);
                }
                return Err(KernelError::DuplicateCapabilityGrant(grant.name.clone()));
            }
            let (made, answer) = resolve_grant(grant, caps, schema_index, codec);
            proof {
                answers = answers.push(answer@);
                lemma_made_prefix(all, defs, schemas, before, answers, i as nat);
                assert(answers[i as int] == answer@);
            }
            match made {
                Ok(x) => {
                    let ghost was = table.map();
                    table.insert(grant.name.clone(), x);
                    proof {
                        lemma_resolved_insert(was, grant.name@, x);
                    }
                },
                Err(e) => {
                    proof {
                        lemma_made_fault(
                            all,
                            defs,
                            schemas,
                            answers,
                            (i + 1) as nat,
                            all.len(),
                        );
                        lemma_all_asked(codec, all, defs, schemas, answers, (i + 1) as nat);
                    }
                    return Err(e);
                },
            }
            i += 1;
        }
        proof {
            lemma_all_asked(codec, all, defs, schemas, answers, i as nat);
        }
        Ok(CapabilityResolver::new(table, effect_catalog))
    }
}

} // verus!
