//! Which definition a reference of a manifest loads, and what secrets are called.
use vstd::prelude::*;

use crate::air::{builtin_index, is_builtin, lemma_builtin_index, Builtin, Builtins, NodeKind,
    NodeTree, RefView};
use crate::cbor::{cbor_parsed, CborTree};
use crate::air::{Manifest, ManifestView};
use crate::store::StoreFault;
use crate::text::{decimal, digits_value, last_index, lemma_decimal_reads_back, lemma_last_index,
    parsed_u64};

use super::json_refs::{field_index, field_refs, item_refs, json_field, json_refs, secret_in,
    JsonNumber, JsonRef, JsonValue};
use super::{catalogued, head_fault, load_step, loaded_defs, ref_digest, secret_keys, secret_name,
    secrets_found, EntryView, LoadStep};

verus! {

/// Whether a definition comes with the kernel under a name.
pub open spec fn comes_along(items: Seq<Builtin>, name: Seq<char>) -> bool {
    exists|k: int| 0 <= k < items.len() && (#[trigger] items[k]).node.name@ == name
}

/// Whether a name is kept for definitions that come with the kernel.
pub open spec fn is_kept(name: Seq<char>) -> bool {
    name.len() >= 4 && name.take(4) == "sys/"@
}

/// Whether a step takes a definition of a name that comes along if its digest is the one that is
/// asked for, and refuses it otherwise.
pub open spec fn is_the_one(
    items: Seq<Builtin>,
    name: Seq<char>,
    digest: Seq<u8>,
    step: LoadStep,
) -> bool {
    exists|k: int|
        0 <= k < items.len() && (#[trigger] items[k]).node.name@ == name && (items[k].hash@ == digest
            ==> step == LoadStep::Take(digest, items[k].node@)) && (items[k].hash@ != digest
            ==> step is Refuse)
}

pub(crate) proof fn lemma_comes_along(items: Seq<Builtin>, name: Seq<char>)
    ensures
        is_builtin(items, name) <==> comes_along(items, name),
    decreases items.len(),
{
    lemma_builtin_index(items, name);
    if is_builtin(items, name) {
        assert(items[builtin_index(items, name)].node.name@ == name);
    }
    if items.len() > 0 && items[0].node.name@ != name {
        let rest = items.drop_first();
        lemma_comes_along(rest, name);
        lemma_builtin_index(rest, name);
        if comes_along(items, name) {
            let k = choose|k: int| 0 <= k < items.len() && (#[trigger] items[k]).node.name@ == name;
            assert(rest[k - 1].node.name@ == name);
        }
    } else if items.len() > 0 {
        assert(items[0].node.name@ == name);
    }
}

/// A reference to a schema or an operation that comes with the kernel gives that definition, and
/// only under its digest. A module that comes along is given under its own reference. Any other
/// reserved name is refused. Everything else is read from the store under the digest in the
/// reference.
pub proof fn lemma_what_a_reference_loads(r: RefView, kind: NodeKind, builtins: Builtins)
    ensures
        ({
            let step = load_step(r, kind, builtins);
            let schema = kind == NodeKind::Schema && comes_along(builtins.schemas@, r.0);
            let op = kind == NodeKind::Op && comes_along(builtins.ops@, r.0);
            let module = kind == NodeKind::Module && comes_along(builtins.modules@, r.0);
            &&& step matches LoadStep::Take(h, node) ==> {
                &&& node.name == r.0
                &&& schema || op || module
                &&& schema || op ==> h == ref_digest(r)
            }
            &&& schema || op ==> !(step is Read)
            &&& is_kept(r.0) && !schema && !op && !module ==> step is Refuse
            &&& !is_kept(r.0) && !schema && !op && !module ==> step == LoadStep::Read(
                ref_digest(r),
            )
            &&& step matches LoadStep::Read(h) ==> h == ref_digest(r)
        }),
        kind == NodeKind::Schema && comes_along(builtins.schemas@, r.0) ==> is_the_one(
            builtins.schemas@,
            r.0,
            ref_digest(r),
            load_step(r, kind, builtins),
        ),
        kind == NodeKind::Op && comes_along(builtins.ops@, r.0) ==> is_the_one(
            builtins.ops@,
            r.0,
            ref_digest(r),
            load_step(r, kind, builtins),
        ),
        kind == NodeKind::Module && comes_along(builtins.modules@, r.0) ==> exists|k: int|
            0 <= k < builtins.modules@.len() && (#[trigger] builtins.modules@[k]).node.name@ == r.0
                && (r.1 == builtins.modules@[k].hash_ref@ ==> load_step(r, kind, builtins)
                == LoadStep::Take(builtins.modules@[k].hash@, builtins.modules@[k].node@)) && (r.1
                != builtins.modules@[k].hash_ref@ ==> load_step(r, kind, builtins) is Read),
{
    reveal_strlit("sys/");
    lemma_comes_along(builtins.schemas@, r.0);
    lemma_comes_along(builtins.ops@, r.0);
    lemma_comes_along(builtins.modules@, r.0);
    lemma_builtin_index(builtins.schemas@, r.0);
    lemma_builtin_index(builtins.ops@, r.0);
    lemma_builtin_index(builtins.modules@, r.0);
    assert(crate::air::is_sys(r.0) <==> is_kept(r.0));
    if kind == NodeKind::Schema && comes_along(builtins.schemas@, r.0) {
        assert(builtins.schemas@[builtin_index(builtins.schemas@, r.0)].node.name@ == r.0);
    }
    if kind == NodeKind::Op && comes_along(builtins.ops@, r.0) {
        assert(builtins.ops@[builtin_index(builtins.ops@, r.0)].node.name@ == r.0);
    }
    if kind == NodeKind::Module && comes_along(builtins.modules@, r.0) {
        assert(builtins.modules@[builtin_index(builtins.modules@, r.0)].node.name@ == r.0);
    }
}

/// A catalog has, under the name of each reference, the definition that the last reference of that
/// name gives: the one that comes along, or the one that the store holds under its digest, which is
/// of the kind of the list. Other names are as they were.
pub proof fn lemma_catalog_has_what_is_referred_to(
    before: Map<Seq<char>, EntryView>,
    refs: Seq<RefView>,
    kind: NodeKind,
    builtins: Builtins,
    stored: Map<Seq<u8>, NodeTree>,
    n: nat,
)
    requires
        n <= refs.len(),
        catalogued(before, refs, kind, builtins, stored, n) is Some,
    ensures
        ({
            let after = catalogued(before, refs, kind, builtins, stored, n)->0;
            &&& forall|i: int|
                0 <= i < n && (forall|j: int|
                    i < j < n ==> (#[trigger] refs[j]).0 != refs[i].0) ==> {
                    let name = (#[trigger] refs[i]).0;
                    &&& after.contains_key(name)
                    &&& match load_step(refs[i], kind, builtins) {
                        LoadStep::Take(h, node) => after[name] == (h, node),
                        LoadStep::Refuse(_) => false,
                        LoadStep::Read(h) => stored.contains_key(h) && stored[h].kind == kind
                            && after[name] == (h, stored[h]),
                    }
                }
            &&& forall|name: Seq<char>|
                (forall|i: int| 0 <= i < n ==> (#[trigger] refs[i]).0 != name) ==> (
                #[trigger] after.contains_key(name) == before.contains_key(name)) && (
                before.contains_key(name) ==> after[name] == before[name])
        }),
    decreases n,
{
    if n > 0 {
        lemma_catalog_has_what_is_referred_to(
            before,
            refs,
            kind,
            builtins,
            stored,
            (n - 1) as nat,
        );
        let done = catalogued(before, refs, kind, builtins, stored, (n - 1) as nat)->0;
        let after = catalogued(before, refs, kind, builtins, stored, n)->0;
        assert forall|i: int|
            0 <= i < n && (forall|j: int|
                i < j < n ==> (#[trigger] refs[j]).0 != refs[i].0) implies {
            let name = (#[trigger] refs[i]).0;
            &&& after.contains_key(name)
            &&& match load_step(refs[i], kind, builtins) {
                LoadStep::Take(h, node) => after[name] == (h, node),
                LoadStep::Refuse(_) => false,
                LoadStep::Read(h) => stored.contains_key(h) && stored[h].kind == kind && after[name]
                    == (h, stored[h]),
            }
        } by {
            if i < n - 1 {
                assert(refs[n - 1].0 != refs[i].0);
                assert(done.contains_key(refs[i].0));
            }
        }
        assert forall|name: Seq<char>|
            (forall|i: int| 0 <= i < n ==> (#[trigger] refs[i]).0 != name) implies (
        #[trigger] after.contains_key(name) == before.contains_key(name)) && (before.contains_key(
            name,
        ) ==> after[name] == before[name]) by {
            assert(refs[n - 1].0 != name);
            assert(done.contains_key(name) == before.contains_key(name));
        }
    }
}

proof fn lemma_decimal_is_digits(n: nat)
    ensures
        decimal(n).len() > 0,
        forall|i: int| 0 <= i < decimal(n).len() ==> #[trigger] decimal(n)[i] != '@',
    decreases n,
{
    if n >= 10 {
        lemma_decimal_is_digits(n / 10);
        let s = decimal(n);
        assert forall|i: int| 0 <= i < s.len() implies #[trigger] s[i] != '@' by {
            if i < s.len() - 1 {
                assert(s[i] == decimal(n / 10)[i]);
            }
        }
    }
}

/// Whether a reference gives a definition: one that comes along, or one of the right kind that the
/// store holds.
pub open spec fn can_be_had(
    r: RefView,
    kind: NodeKind,
    builtins: Builtins,
    stored: Map<Seq<u8>, NodeTree>,
) -> bool {
    match load_step(r, kind, builtins) {
        LoadStep::Take(_, _) => true,
        LoadStep::Refuse(_) => false,
        LoadStep::Read(h) => stored.contains_key(h) && stored[h].kind == kind,
    }
}

/// References are catalogued if and only if each of them gives a definition.
pub proof fn lemma_catalog_needs_every_reference(
    before: Map<Seq<char>, EntryView>,
    refs: Seq<RefView>,
    kind: NodeKind,
    builtins: Builtins,
    stored: Map<Seq<u8>, NodeTree>,
    n: nat,
)
    requires
        n <= refs.len(),
    ensures
        catalogued(before, refs, kind, builtins, stored, n) is Some <==> forall|i: int|
            0 <= i < n ==> can_be_had(#[trigger] refs[i], kind, builtins, stored),
    decreases n,
{
    if n > 0 {
        lemma_catalog_needs_every_reference(before, refs, kind, builtins, stored, (n - 1) as nat);
    }
}

/// The name of a secret is its alias, an at sign and its version: such a name is read back as the
/// two, whatever the alias, and a version of zero is refused.
pub proof fn lemma_secret_name_reads_back(alias: Seq<char>, version: u64)
    ensures
        version >= 1 ==> secret_name(alias + "@"@ + decimal(version as nat)) == Ok::<
            (Seq<char>, u64),
            StoreFault,
        >((alias, version)),
        version == 0 ==> secret_name(alias + "@"@ + decimal(0)) is Err,
        version >= 1 && alias.len() > 0 ==> crate::governance::named_secret(
            alias + "@"@ + decimal(version as nat),
        ) == Ok::<(Seq<char>, u64), Seq<char>>((alias, version)),
{
    reveal_strlit("@");
    let d = decimal(version as nat);
    let name = alias + "@"@ + d;
    lemma_decimal_is_digits(version as nat);
    lemma_decimal_reads_back(version as nat);
    lemma_last_index(name, '@');
    assert(name[alias.len() as int] == '@');
    let at = last_index(name, '@');
    if at > alias.len() {
        assert(name[at] == d[at - alias.len() - 1]);
    }
    assert(at == alias.len());
    assert(name.take(at) =~= alias);
    assert(name.skip(at + 1) =~= d);
}

proof fn lemma_digits_fit(s: Seq<char>)
    ensures
        digits_value(s) matches Ok(v) ==> v <= u64::MAX,
    decreases s.len(),
{
}

/// A name of a secret that is accepted has an at sign, the alias before the last one, and behind it
/// a version of at least one.
pub proof fn lemma_secret_name_is_split(name: Seq<char>)
    ensures
        secret_name(name) matches Ok((alias, version)) ==> {
            &&& version >= 1
            &&& alias.len() < name.len()
            &&& name.take(alias.len() as int) == alias
            &&& name[alias.len() as int] == '@'
            &&& forall|j: int| alias.len() < j < name.len() ==> name[j] != '@'
            &&& parsed_u64(name.skip(alias.len() as int + 1)) == Ok::<nat, Seq<char>>(version as nat)
        },
        (forall|i: int| 0 <= i < name.len() ==> name[i] != '@') ==> secret_name(name) is Err,
{
    lemma_last_index(name, '@');
    let at = last_index(name, '@');
    if at >= 0 {
        assert(name.take(at).len() == at);
        assert(name[at] == '@');
        if let Ok(v) = parsed_u64(name.skip(at + 1)) {
            lemma_digits_fit(name.skip(at + 1));
            if name.skip(at + 1).len() > 0 {
                lemma_digits_fit(name.skip(at + 1).skip(1));
            }
        }
    }
}

/// Secrets are in order if and only if the keys of all of them can be had: each name is one of a
/// secret, each has a binding, and no two have both alias and version in common.
pub proof fn lemma_secrets_are_told_apart(secrets: Seq<NodeTree>, n: nat)
    requires
        n <= secrets.len(),
        secret_keys(secrets, n) is Ok,
    ensures
        ({
            let keys = secret_keys(secrets, n)->Ok_0;
            &&& keys.len() == n
            &&& forall|i: int|
                0 <= i < n ==> secret_name((#[trigger] secrets[i]).name) == Ok::<
                    (Seq<char>, u64),
                    StoreFault,
                >(keys[i]) && crate::text::trimmed(secrets[i].binding_id).len() > 0
            &&& forall|i: int, j: int|
                0 <= i < j < n ==> #[trigger] keys[i] != #[trigger] keys[j]
        }),
    decreases n,
{
    if n > 0 {
        lemma_secrets_are_told_apart(secrets, (n - 1) as nat);
        let before = secret_keys(secrets, (n - 1) as nat)->Ok_0;
        let keys = secret_keys(secrets, n)->Ok_0;
        assert forall|i: int| 0 <= i < n implies secret_name((#[trigger] secrets[i]).name) == Ok::<
            (Seq<char>, u64),
            StoreFault,
        >(keys[i]) && crate::text::trimmed(secrets[i].binding_id).len() > 0 by {
            if i < n - 1 {
                assert(keys[i] == before[i]);
            }
        }
        assert forall|i: int, j: int| 0 <= i < j < n implies #[trigger] keys[i]
            != #[trigger] keys[j] by {
            if j == n - 1 {
                assert(keys[i] == before[i]);
                assert(before.contains(before[i]));
            } else {
                assert(keys[i] == before[i] && keys[j] == before[j]);
            }
        }
    }
}

/// The secrets of a manifest are the definitions that were loaded under the names of its
/// references, in their order; all of them are secrets.
pub proof fn lemma_secrets_follow_their_references(
    refs: Seq<RefView>,
    nodes: Map<Seq<char>, EntryView>,
    n: nat,
)
    requires
        n <= refs.len(),
    ensures
        secrets_found(refs, nodes, n) is Ok <==> forall|i: int|
            0 <= i < n ==> nodes.contains_key((#[trigger] refs[i]).0) && nodes[refs[i].0].1.kind
                == NodeKind::Secret && secret_name(nodes[refs[i].0].1.name) is Ok,
        secrets_found(refs, nodes, n) matches Ok(s) ==> s.len() == n && forall|i: int|
            0 <= i < n ==> #[trigger] s[i] == nodes[refs[i].0].1,
    decreases n,
{
    if n > 0 {
        lemma_secrets_follow_their_references(refs, nodes, (n - 1) as nat);
        if let Ok(s) = secrets_found(refs, nodes, n) {
            let before = secrets_found(refs, nodes, (n - 1) as nat)->Ok_0;
            assert forall|i: int| 0 <= i < n implies #[trigger] s[i] == nodes[refs[i].0].1 by {
                if i < n - 1 {
                    assert(s[i] == before[i]);
                }
            }
        }
    }
}

/// A manifest is taken only where its bytes hold a map with a version, they can be read as a
/// manifest, and the version is the one at hand.
pub proof fn lemma_only_this_version_is_taken(bytes: Seq<u8>, parsed: Result<Manifest, String>)
    ensures
        head_fault(bytes, parsed) is None <==> {
            &&& cbor_parsed(bytes) matches Ok(CborTree::Mapping(entries)) && exists|i: int|
                0 <= i < entries.len() && (#[trigger] entries[i]).0 == CborTree::Text(
                    "air_version"@,
                )
            &&& parsed matches Ok(m) && m.air_version@ == "1"@
        },
{
}

proof fn lemma_field_found(fields: Seq<(String, JsonValue)>, name: Seq<char>)
    ensures
        0 <= field_index(fields, name) <= fields.len(),
        json_field(fields, name) is Some <==> exists|i: int|
            0 <= i < fields.len() && (#[trigger] fields[i]).0@ == name,
        json_field(fields, name) matches Some(v) ==> exists|i: int|
            0 <= i < fields.len() && (#[trigger] fields[i]).0@ == name && fields[i].1 == v,
    decreases fields.len(),
{
    if fields.len() > 0 {
        let rest = fields.drop_first();
        lemma_field_found(rest, name);
        if fields[0].0@ == name {
            assert(fields[0].0@ == name);
        } else {
            if exists|i: int| 0 <= i < fields.len() && (#[trigger] fields[i]).0@ == name {
                let i = choose|i: int| 0 <= i < fields.len() && (#[trigger] fields[i]).0@ == name;
                assert(rest[i - 1] == fields[i]);
            }
            if let Some(v) = json_field(rest, name) {
                let i = choose|i: int|
                    0 <= i < rest.len() && (#[trigger] rest[i]).0@ == name && rest[i].1 == v;
                assert(fields[i + 1] == rest[i]);
            }
        }
    }
}

/// An object refers to a secret if and only if it has two fields, an alias that is a text and a
/// version that is a natural number, and it refers to that alias and version.
pub proof fn lemma_object_that_refers(a: (String, JsonValue), b: (String, JsonValue))
    requires
        a.0@ == "alias"@,
        b.0@ == "version"@,
    ensures
        forall|v: JsonValue|
            (v matches JsonValue::Object(fields) && (fields@ == seq![a, b] || fields@ == seq![
                b,
                a,
            ])) ==> (#[trigger] secret_in(v) is Some <==> a.1 is Text && b.1 matches JsonValue::Number(
                JsonNumber::Natural(_),
            )) && (secret_in(v) matches Some(x) ==> a.1 == JsonValue::Text(a.1->Text_0) && x.0
                == a.1->Text_0@ && b.1 == JsonValue::Number(JsonNumber::Natural(x.1))),
        forall|v: JsonValue|
            #![trigger secret_in(v)]
            !(v matches JsonValue::Object(fields) && fields@.len() == 2) ==> secret_in(v) is None,
{
    reveal_strlit("alias");
    reveal_strlit("version");
    assert("alias"@.len() != "version"@.len());
    assert forall|v: JsonValue|
        (v matches JsonValue::Object(fields) && (fields@ == seq![a, b] || fields@ == seq![
            b,
            a,
        ])) implies (#[trigger] secret_in(v) is Some <==> a.1 is Text && b.1 matches JsonValue::Number(
        JsonNumber::Natural(_),
    )) && (secret_in(v) matches Some(x) ==> a.1 == JsonValue::Text(a.1->Text_0) && x.0
        == a.1->Text_0@ && b.1 == JsonValue::Number(JsonNumber::Natural(x.1))) by {
        let fields = v->Object_0@;
        lemma_field_found(fields, "alias"@);
        lemma_field_found(fields, "version"@);
        let k: int = if fields == seq![a, b] {
            0
        } else {
            1
        };
        assert(fields[k] == a && fields[1 - k] == b);
        assert(json_field(fields, "alias"@) == Some(a.1));
        assert(json_field(fields, "version"@) == Some(b.1));
    }
}

/// The secrets that a document refers to are its own reference and those of the values inside it,
/// and no others.
pub proof fn lemma_json_references_are_found(v: JsonValue, x: JsonRef)
    ensures
        v matches JsonValue::Array(items) ==> (json_refs(v).contains(x) <==> exists|i: int|
            0 <= i < items@.len() && json_refs(#[trigger] items@[i]).contains(x)),
        v matches JsonValue::Object(fields) ==> (json_refs(v).contains(x) <==> secret_in(v) == Some(
            x,
        ) || exists|i: int|
            0 <= i < fields@.len() && json_refs((#[trigger] fields@[i]).1).contains(x)),
        !(v is Array) && !(v is Object) ==> json_refs(v).len() == 0,
{
    let own = match secret_in(v) {
        Some(y) => seq![y],
        None => Seq::empty(),
    };
    if let Some(y) = secret_in(v) {
        assert(seq![y][0] == y);
    }
    if let JsonValue::Array(items) = v {
        lemma_items_found(items@, x, items@.len());
        assert(own + item_refs(items@, items@.len()) =~= item_refs(items@, items@.len()));
    }
    if let JsonValue::Object(fields) = v {
        lemma_fields_found(fields@, x, fields@.len());
        lemma_joined(own, field_refs(fields@, fields@.len()), x);
    }
}

proof fn lemma_joined(a: Seq<JsonRef>, b: Seq<JsonRef>, x: JsonRef)
    ensures
        (a + b).contains(x) <==> a.contains(x) || b.contains(x),
{
    let c = a + b;
    if c.contains(x) {
        let i = choose|i: int| 0 <= i < c.len() && c[i] == x;
        if i >= a.len() {
            assert(b[i - a.len()] == x);
        } else {
            assert(a[i] == x);
        }
    }
    if a.contains(x) {
        let i = choose|i: int| 0 <= i < a.len() && a[i] == x;
        assert(c[i] == x);
    }
    if b.contains(x) {
        let i = choose|i: int| 0 <= i < b.len() && b[i] == x;
        assert(c[i + a.len()] == x);
    }
}

proof fn lemma_items_found(items: Seq<JsonValue>, x: JsonRef, n: nat)
    requires
        n <= items.len(),
    ensures
        item_refs(items, n).contains(x) <==> exists|i: int|
            0 <= i < n && json_refs(#[trigger] items[i]).contains(x),
    decreases n,
{
    if n > 0 {
        lemma_items_found(items, x, (n - 1) as nat);
        lemma_joined(item_refs(items, (n - 1) as nat), json_refs(items[n - 1]), x);
    }
}

proof fn lemma_fields_found(fields: Seq<(String, JsonValue)>, x: JsonRef, n: nat)
    requires
        n <= fields.len(),
    ensures
        field_refs(fields, n).contains(x) <==> exists|i: int|
            0 <= i < n && json_refs((#[trigger] fields[i]).1).contains(x),
    decreases n,
{
    if n > 0 {
        lemma_fields_found(fields, x, (n - 1) as nat);
        lemma_joined(field_refs(fields, (n - 1) as nat), json_refs(fields[n - 1].1), x);
    }
}

/// A loaded catalog has a definition under every name that the lists of the manifest refer to, be
/// it of a schema, a module, an operation or a secret.
pub proof fn lemma_catalog_has_all_lists(
    m: ManifestView,
    builtins: Builtins,
    stored: Map<Seq<u8>, NodeTree>,
)
    requires
        loaded_defs(m, builtins, stored, 4) is Some,
    ensures
        ({
            let c = loaded_defs(m, builtins, stored, 4)->0;
            &&& forall|i: int| 0 <= i < m.schemas.len() ==> c.contains_key((#[trigger] m.schemas[i]).0)
            &&& forall|i: int| 0 <= i < m.modules.len() ==> c.contains_key((#[trigger] m.modules[i]).0)
            &&& forall|i: int| 0 <= i < m.ops.len() ==> c.contains_key((#[trigger] m.ops[i]).0)
            &&& forall|i: int| 0 <= i < m.secrets.len() ==> c.contains_key((#[trigger] m.secrets[i]).0)
        }),
        forall|i: int|
            0 <= i < m.schemas.len() ==> can_be_had(
                #[trigger] m.schemas[i],
                NodeKind::Schema,
                builtins,
                stored,
            ),
        forall|i: int|
            0 <= i < m.modules.len() ==> can_be_had(
                #[trigger] m.modules[i],
                NodeKind::Module,
                builtins,
                stored,
            ),
        forall|i: int|
            0 <= i < m.ops.len() ==> can_be_had(
                #[trigger] m.ops[i],
                NodeKind::Op,
                builtins,
                stored,
            ),
        forall|i: int|
            0 <= i < m.secrets.len() ==> can_be_had(
                #[trigger] m.secrets[i],
                NodeKind::Secret,
                builtins,
                stored,
            ),
{
    reveal_with_fuel(loaded_defs, 5);
    let c0 = Map::<Seq<char>, EntryView>::empty();
    let c1 = loaded_defs(m, builtins, stored, 1)->0;
    let c2 = loaded_defs(m, builtins, stored, 2)->0;
    let c3 = loaded_defs(m, builtins, stored, 3)->0;
    assert(loaded_defs(m, builtins, stored, 3) is Some);
    assert(loaded_defs(m, builtins, stored, 2) is Some);
    assert(loaded_defs(m, builtins, stored, 1) is Some);
    lemma_list_is_catalogued(c0, m.schemas, NodeKind::Schema, builtins, stored, m.schemas.len());
    lemma_list_is_catalogued(c1, m.modules, NodeKind::Module, builtins, stored, m.modules.len());
    lemma_list_is_catalogued(c2, m.ops, NodeKind::Op, builtins, stored, m.ops.len());
    lemma_list_is_catalogued(c3, m.secrets, NodeKind::Secret, builtins, stored, m.secrets.len());
    lemma_catalog_needs_every_reference(
        c0,
        m.schemas,
        NodeKind::Schema,
        builtins,
        stored,
        m.schemas.len(),
    );
    lemma_catalog_needs_every_reference(
        c1,
        m.modules,
        NodeKind::Module,
        builtins,
        stored,
        m.modules.len(),
    );
    lemma_catalog_needs_every_reference(c2, m.ops, NodeKind::Op, builtins, stored, m.ops.len());
    lemma_catalog_needs_every_reference(
        c3,
        m.secrets,
        NodeKind::Secret,
        builtins,
        stored,
        m.secrets.len(),
    );
}

proof fn lemma_list_is_catalogued(
    before: Map<Seq<char>, EntryView>,
    refs: Seq<RefView>,
    kind: NodeKind,
    builtins: Builtins,
    stored: Map<Seq<u8>, NodeTree>,
    n: nat,
)
    requires
        n <= refs.len(),
        catalogued(before, refs, kind, builtins, stored, n) is Some,
    ensures
        ({
            let after = catalogued(before, refs, kind, builtins, stored, n)->0;
            &&& forall|i: int| 0 <= i < n ==> after.contains_key((#[trigger] refs[i]).0)
            &&& forall|name: Seq<char>| #[trigger]
                before.contains_key(name) ==> after.contains_key(name)
        }),
    decreases n,
{
    if n > 0 {
        lemma_list_is_catalogued(before, refs, kind, builtins, stored, (n - 1) as nat);
    }
}

} // verus!
