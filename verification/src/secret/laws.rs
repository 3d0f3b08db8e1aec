//! Which secret stands where, and who may use it.
use vstd::prelude::*;
use vstd::utf8::{decode_utf8, valid_utf8};

use crate::cbor::{text_entry, CborTree};
use crate::effects::EffectSource;
use crate::hash::{hex_bytes, is_hash_text, sha256};

use super::{entries_injected, first_denied, first_unresolved, injected, items_injected, last_decl,
    placeholder_answer, refs_in, refs_in_entries, refs_in_items, secret_at, table_answer,
    use_denied, version_name, DeclView, RefTo, SecretFault, SecretResolver};

verus! {

/// A version of a secret is the one that was declared last under its alias and its number, and none
/// where none was.
pub proof fn lemma_last_declaration_counts(decls: Seq<DeclView>, alias: Seq<char>, version: u64)
    ensures
        match last_decl(decls, alias, version) {
            None => forall|i: int|
                0 <= i < decls.len() ==> !((#[trigger] decls[i]).alias == alias && decls[i].version
                    == version),
            Some(d) => exists|k: int|
                0 <= k < decls.len() && #[trigger] decls[k] == d && d.alias == alias && d.version
                    == version && forall|j: int|
                    k < j < decls.len() ==> !((#[trigger] decls[j]).alias == alias
                        && decls[j].version == version),
        },
    decreases decls.len(),
{
    if decls.len() > 0 {
        let front = decls.drop_last();
        lemma_last_declaration_counts(front, alias, version);
        if decls.last().alias == alias && decls.last().version == version {
            assert(decls[decls.len() - 1] == decls.last());
        } else {
            match last_decl(front, alias, version) {
                None => {
                    assert forall|i: int| 0 <= i < decls.len() implies !((
                    #[trigger] decls[i]).alias == alias && decls[i].version == version) by {
                        if i < front.len() {
                            assert(front[i] == decls[i]);
                        }
                    }
                },
                Some(d) => {
                    let k = choose|k: int|
                        0 <= k < front.len() && #[trigger] front[k] == d && d.alias == alias
                            && d.version == version && forall|j: int|
                            k < j < front.len() ==> !((#[trigger] front[j]).alias == alias
                                && front[j].version == version);
                    assert(decls[k] == d);
                    assert forall|j: int| k < j < decls.len() implies !((
                    #[trigger] decls[j]).alias == alias && decls[j].version == version) by {
                        if j < front.len() {
                            assert(front[j] == decls[j]);
                        }
                    }
                },
            }
        }
    }
}

/// Whether a value is a reference to a version of a secret: a map with the one key `secret`, whose
/// value has the alias and the version.
pub open spec fn refers(t: CborTree, x: RefTo) -> bool {
    &&& t matches CborTree::Mapping(m)
    &&& m.len() == 1
    &&& m[0].0 == CborTree::Text("secret"@)
    &&& m[0].1 matches CborTree::Mapping(inner)
    &&& text_entry(inner, "alias"@) == Some(CborTree::Text(x.0))
    &&& text_entry(inner, "version"@) == Some(CborTree::Integer(x.1 as i128))
}

/// A reference is replaced by the value of the secret that is declared under it: as a text where
/// the value is UTF-8, and else as bytes. One that is not declared is not found, and the resolver's
/// refusal stands.
pub proof fn lemma_reference_is_replaced<R: SecretResolver>(
    t: CborTree,
    x: RefTo,
    decls: Seq<DeclView>,
    resolver: R,
)
    requires
        refers(t, x),
    ensures
        match last_decl(decls, x.0, x.1) {
            None => injected(t, decls, resolver) == Err::<CborTree, SecretFault>(
                SecretFault::NotFound(version_name(x)),
            ),
            Some(d) => match resolver.answer(d.binding_id, d.expected_digest) {
                Err(f) => injected(t, decls, resolver) == Err::<CborTree, SecretFault>(f),
                Ok(s) => injected(t, decls, resolver) == Ok::<CborTree, SecretFault>(
                    if valid_utf8(s.value) {
                        CborTree::Text(decode_utf8(s.value))
                    } else {
                        CborTree::Bytes(s.value)
                    },
                ),
            },
        },
        refs_in(t).contains(x),
{
    assert((x.1 as i128) as u64 == x.1);
    let m = t->Mapping_0;
    assert(secret_at(t) == Some(x));
    let own = seq![x];
    let all = own + refs_in_entries(m, m.len());
    assert(all[0] == x);
}

/// What is no reference keeps its shape: a list its length and order, a map its keys in their
/// order, and anything else stays as it is. What is inside is replaced in its place, and one
/// fault inside is a fault of the whole.
pub proof fn lemma_rest_keeps_its_shape<R: SecretResolver>(
    t: CborTree,
    decls: Seq<DeclView>,
    resolver: R,
)
    ensures
        t matches CborTree::Array(items) ==> match injected(t, decls, resolver) {
            Ok(r) => r matches CborTree::Array(out) && out.len() == items.len() && forall|i: int|
                0 <= i < items.len() ==> injected(items[i], decls, resolver) == Ok::<
                    CborTree,
                    SecretFault,
                >(#[trigger] out[i]),
            Err(f) => exists|i: int|
                0 <= i < items.len() && injected(#[trigger] items[i], decls, resolver) == Err::<
                    CborTree,
                    SecretFault,
                >(f),
        },
        t matches CborTree::Mapping(entries) ==> secret_at(t) is None ==> match injected(
            t,
            decls,
            resolver,
        ) {
            Ok(r) => r matches CborTree::Mapping(out) && out.len() == entries.len() && forall|i: int|
                0 <= i < entries.len() ==> (#[trigger] out[i]).0 == entries[i].0 && injected(
                    entries[i].1,
                    decls,
                    resolver,
                ) == Ok::<CborTree, SecretFault>(out[i].1),
            Err(f) => exists|i: int|
                0 <= i < entries.len() && injected((#[trigger] entries[i]).1, decls, resolver)
                    == Err::<CborTree, SecretFault>(f),
        },
        !(t is Array) && !(t is Mapping) ==> injected(t, decls, resolver) == Ok::<
            CborTree,
            SecretFault,
        >(t),
        (t matches CborTree::Mapping(m) ==> m.len() != 1 || m[0].0 != CborTree::Text("secret"@))
            ==> secret_at(t) is None,
{
    if let CborTree::Array(items) = t {
        lemma_items_at(items, decls, resolver, items.len());
    }
    if let CborTree::Mapping(entries) = t {
        lemma_entries_at(entries, decls, resolver, entries.len());
    }
}

proof fn lemma_items_at<R: SecretResolver>(
    items: Seq<CborTree>,
    decls: Seq<DeclView>,
    resolver: R,
    n: nat,
)
    requires
        n <= items.len(),
    ensures
        match items_injected(items, decls, resolver, n) {
            Ok(out) => out.len() == n && forall|i: int|
                0 <= i < n ==> injected(items[i], decls, resolver) == Ok::<CborTree, SecretFault>(
                    #[trigger] out[i],
                ),
            Err(f) => exists|i: int|
                0 <= i < n && injected(#[trigger] items[i], decls, resolver) == Err::<
                    CborTree,
                    SecretFault,
                >(f),
        },
    decreases n,
{
    if n > 0 {
        lemma_items_at(items, decls, resolver, (n - 1) as nat);
        match items_injected(items, decls, resolver, n) {
            Ok(out) => {
                let done = items_injected(items, decls, resolver, (n - 1) as nat)->Ok_0;
                assert forall|i: int| 0 <= i < n implies injected(items[i], decls, resolver)
                    == Ok::<CborTree, SecretFault>(#[trigger] out[i]) by {
                    if i < n - 1 {
                        assert(out[i] == done[i]);
                    }
                }
            },
            Err(f) => {
                if items_injected(items, decls, resolver, (n - 1) as nat) is Ok {
                    assert(injected(items[n - 1], decls, resolver) == Err::<CborTree, SecretFault>(
                        f,
                    ));
                }
            },
        }
    }
}

proof fn lemma_entries_at<R: SecretResolver>(
    entries: Seq<(CborTree, CborTree)>,
    decls: Seq<DeclView>,
    resolver: R,
    n: nat,
)
    requires
        n <= entries.len(),
    ensures
        match entries_injected(entries, decls, resolver, n) {
            Ok(out) => out.len() == n && forall|i: int|
                0 <= i < n ==> (#[trigger] out[i]).0 == entries[i].0 && injected(
                    entries[i].1,
                    decls,
                    resolver,
                ) == Ok::<CborTree, SecretFault>(out[i].1),
            Err(f) => exists|i: int|
                0 <= i < n && injected((#[trigger] entries[i]).1, decls, resolver) == Err::<
                    CborTree,
                    SecretFault,
                >(f),
        },
    decreases n,
{
    if n > 0 {
        lemma_entries_at(entries, decls, resolver, (n - 1) as nat);
        match entries_injected(entries, decls, resolver, n) {
            Ok(out) => {
                let done = entries_injected(entries, decls, resolver, (n - 1) as nat)->Ok_0;
                assert forall|i: int| 0 <= i < n implies (#[trigger] out[i]).0 == entries[i].0
                    && injected(entries[i].1, decls, resolver) == Ok::<CborTree, SecretFault>(
                    out[i].1,
                ) by {
                    if i < n - 1 {
                        assert(out[i] == done[i]);
                    }
                }
            },
            Err(f) => {
                if entries_injected(entries, decls, resolver, (n - 1) as nat) is Ok {
                    assert(injected(entries[n - 1].1, decls, resolver) == Err::<
                        CborTree,
                        SecretFault,
                    >(f));
                }
            },
        }
    }
}

/// The secrets that a value refers to are its own reference and those of the values inside it, and
/// no others.
pub proof fn lemma_references_are_found(t: CborTree, x: RefTo)
    ensures
        t matches CborTree::Array(items) ==> (refs_in(t).contains(x) <==> exists|i: int|
            0 <= i < items.len() && refs_in(#[trigger] items[i]).contains(x)),
        t matches CborTree::Mapping(entries) ==> (refs_in(t).contains(x) <==> secret_at(t) == Some(x)
            || exists|i: int|
            0 <= i < entries.len() && refs_in((#[trigger] entries[i]).1).contains(x)),
        !(t is Array) && !(t is Mapping) ==> refs_in(t).len() == 0,
{
    if let CborTree::Array(items) = t {
        lemma_items_found(items, x, items.len());
    }
    if let CborTree::Mapping(entries) = t {
        lemma_entries_found(entries, x, entries.len());
        let inner = refs_in_entries(entries, entries.len());
        if let Some(y) = secret_at(t) {
            lemma_joined(seq![y], inner, x);
            assert(seq![y].contains(x) <==> y == x) by {
                assert(seq![y][0] == y);
            }
        } else {
            assert(Seq::<RefTo>::empty() + inner =~= inner);
        }
    }
}

proof fn lemma_joined(a: Seq<RefTo>, b: Seq<RefTo>, x: RefTo)
    ensures
        (a + b).contains(x) <==> a.contains(x) || b.contains(x),
{
    let c = a + b;
    if c.contains(x) {
        let i = choose|i: int| 0 <= i < c.len() && c[i] == x;
        if i < a.len() {
            assert(a[i] == x);
        } else {
            assert(b[i - a.len()] == x);
        }
    }
    if a.contains(x) {
        let i = choose|i: int| 0 <= i < a.len() && a[i] == x;
        assert(c[i] == x);
    }
    if b.contains(x) {
        let i = choose|i: int| 0 <= i < b.len() && b[i] == x;
        assert(c[i + a.len()] == x);
    }
}

proof fn lemma_items_found(items: Seq<CborTree>, x: RefTo, n: nat)
    requires
        n <= items.len(),
    ensures
        refs_in_items(items, n).contains(x) <==> exists|i: int|
            0 <= i < n && refs_in(#[trigger] items[i]).contains(x),
    decreases n,
{
    if n > 0 {
        lemma_items_found(items, x, (n - 1) as nat);
        lemma_joined(refs_in_items(items, (n - 1) as nat), refs_in(items[n - 1]), x);
    }
}

proof fn lemma_entries_found(entries: Seq<(CborTree, CborTree)>, x: RefTo, n: nat)
    requires
        n <= entries.len(),
    ensures
        refs_in_entries(entries, n).contains(x) <==> exists|i: int|
            0 <= i < n && refs_in((#[trigger] entries[i]).1).contains(x),
    decreases n,
{
    if n > 0 {
        lemma_entries_found(entries, x, (n - 1) as nat);
        lemma_joined(refs_in_entries(entries, (n - 1) as nat), refs_in(entries[n - 1].1), x);
    }
}

/// References pass if and only if each is declared and the resolver has it.
pub proof fn lemma_references_pass<R: SecretResolver>(
    refs: Seq<RefTo>,
    decls: Seq<DeclView>,
    resolver: R,
    n: nat,
)
    requires
        n <= refs.len(),
    ensures
        first_unresolved(refs, decls, resolver, n) is None <==> forall|i: int|
            0 <= i < n ==> {
                let d = last_decl(decls, (#[trigger] refs[i]).0, refs[i].1);
                d is Some && resolver.answer(d->0.binding_id, d->0.expected_digest) is Ok
            },
    decreases n,
{
    if n > 0 {
        lemma_references_pass(refs, decls, resolver, (n - 1) as nat);
    }
}

/// Whether the policy of a secret keeps it from a grant, or from the plan that asks. An empty list
/// keeps it from nobody.
pub open spec fn is_kept_from(d: DeclView, origin: EffectSource, cap_name: Seq<char>) -> bool {
    d.policy matches Some((caps, plans)) && {
        ||| caps.len() > 0 && forall|i: int| 0 <= i < caps.len() ==> #[trigger] caps[i] != cap_name
        ||| plans.len() > 0 && (origin matches EffectSource::Plan { name } && forall|i: int|
            0 <= i < plans.len() ==> #[trigger] plans[i] != name@)
    }
}

/// The use of secrets is denied if and only if the policy of one of them keeps it from the grant or
/// from the plan that asks; it is then the first such one that is named. Secrets without a policy,
/// and those that are not declared, are not held up.
pub proof fn lemma_policy_keeps_secrets(
    refs: Seq<RefTo>,
    decls: Seq<DeclView>,
    origin: EffectSource,
    cap_name: Seq<char>,
    n: nat,
)
    requires
        n <= refs.len(),
    ensures
        match first_denied(refs, decls, origin, cap_name, n) {
            None => forall|i: int|
                0 <= i < n ==> !(last_decl(decls, (#[trigger] refs[i]).0, refs[i].1) matches Some(d)
                    && is_kept_from(d, origin, cap_name)),
            Some((x, why)) => exists|k: int|
                0 <= k < n && #[trigger] refs[k] == x && (last_decl(decls, x.0, x.1) matches Some(d)
                    && is_kept_from(d, origin, cap_name)) && forall|i: int|
                    0 <= i < k ==> !(last_decl(decls, (#[trigger] refs[i]).0, refs[i].1) matches
                        Some(d) && is_kept_from(d, origin, cap_name)),
        },
    decreases n,
{
    if n > 0 {
        lemma_policy_keeps_secrets(refs, decls, origin, cap_name, (n - 1) as nat);
        let x = refs[n - 1];
        assert(use_denied(x, decls, origin, cap_name) is Some <==> (last_decl(decls, x.0, x.1)
            matches Some(d) && is_kept_from(d, origin, cap_name))) by {
            if let Some(d) = last_decl(decls, x.0, x.1) {
                if let Some((caps, plans)) = d.policy {
                    assert(caps.contains(cap_name) <==> !(forall|i: int|
                        0 <= i < caps.len() ==> #[trigger] caps[i] != cap_name));
                    if let EffectSource::Plan { name } = origin {
                        assert(plans.contains(name@) <==> !(forall|i: int|
                            0 <= i < plans.len() ==> #[trigger] plans[i] != name@));
                    }
                }
            }
        }
        if first_denied(refs, decls, origin, cap_name, (n - 1) as nat) is None {
            assert(refs[n - 1] == x);
        }
    }
}

/// A table gives the value that it has under a binding, with its digest. Where a digest is expected
/// it must be that of the value.
pub proof fn lemma_table_gives_its_value(
    values: Map<Seq<char>, Seq<u8>>,
    binding_id: Seq<char>,
    expected: Option<Seq<char>>,
)
    ensures
        table_answer(values, binding_id, expected) is Ok <==> values.contains_key(binding_id) && (
        expected matches Some(e) ==> is_hash_text(e) && hex_bytes(e.skip(7)) == sha256(
            values[binding_id],
        )),
        table_answer(values, binding_id, expected) matches Ok(s) ==> s.binding_id == binding_id
            && s.value == values[binding_id] && s.digest == sha256(values[binding_id]),
{
}

/// What stands in for a secret in a shadow run has no value, so none can leak, and has the digest
/// that is expected, where one is.
pub proof fn lemma_placeholder_is_empty(binding_id: Seq<char>, expected: Option<Seq<char>>)
    ensures
        placeholder_answer(binding_id, expected) is Ok <==> (expected matches Some(e)
            ==> is_hash_text(e)),
        placeholder_answer(binding_id, expected) matches Ok(s) ==> s.binding_id == binding_id
            && s.value.len() == 0 && (expected matches Some(e) ==> s.digest == hex_bytes(e.skip(7))),
{
}

} // verus!
