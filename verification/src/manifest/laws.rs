//! Which definitions a loaded manifest has, and under which digests they are stored.
use vstd::prelude::*;

use crate::air::{builtin_index, has_ref, lemma_builtin_index, lemma_ref_index, ref_index, Builtin,
    Builtins, NodeKind, NodeTree, RefView};
use crate::air::{AirNode, Manifest};
use crate::governance::{defs_loaded, defs_of, named_secret, nodes_view, patch_loaded,
    secrets_loaded, secrets_of, PatchView};
use crate::governance_utils::all_zero;
use crate::hash::{hash_text, sha256, ContentHash};
use crate::manifest_catalog::laws::{comes_along, is_kept, lemma_comes_along};
use crate::manifest_catalog::{ref_digest, Catalog, EntryView};
use crate::names::{deep, NameMap};
use crate::store::Store;

use super::{assembled, checked, found_hash, hashes_of, manifest_kept, manifest_patched, of_kind,
    own_defs, own_hashes, refs_patched, with_builtins, LoadedManifest, ManifestCodec,
    StoredHashes};

verus! {

/// The definitions of a kind are those among all that are of it, under the names that they had.
pub proof fn lemma_kinds_are_sorted_out(
    nodes: Map<Seq<char>, EntryView>,
    kind: NodeKind,
    name: Seq<char>,
)
    ensures
        of_kind(nodes, kind).contains_key(name) <==> nodes.contains_key(name) && nodes[name].1.kind
            == kind,
        of_kind(nodes, kind).contains_key(name) ==> of_kind(nodes, kind)[name] == nodes[name].1,
{
}

/// Built-in definitions come in where their names are free and they are wanted: all of them, or
/// those that are referred to. Of several with one name the first comes in. Nothing else does.
pub proof fn lemma_builtins_fill_the_gaps(
    defs: Map<Seq<char>, NodeTree>,
    items: Seq<Builtin>,
    only: Option<Seq<RefView>>,
    n: nat,
    name: Seq<char>,
)
    requires
        n <= items.len(),
        !defs.contains_key(name),
    ensures
        ({
            let after = with_builtins(defs, items, only, n);
            let wanted = only matches Some(refs) ==> exists|i: int|
                0 <= i < refs.len() && (#[trigger] refs[i]).0 == name;
            &&& after.contains_key(name) <==> wanted && exists|k: int|
                0 <= k < n && (#[trigger] items[k]).node.name@ == name
            &&& after.contains_key(name) ==> exists|k: int|
                0 <= k < n && (#[trigger] items[k]).node.name@ == name && after[name]
                    == items[k].node@ && forall|j: int|
                    0 <= j < k ==> (#[trigger] items[j]).node.name@ != name
        }),
    decreases n,
{
    if let Some(refs) = only {
        lemma_ref_index(refs, name);
        if ref_index(refs, name) < refs.len() {
            assert(refs[ref_index(refs, name)].0 == name);
        }
        assert(has_ref(refs, name) <==> exists|i: int|
            0 <= i < refs.len() && (#[trigger] refs[i]).0 == name);
    }
    if n > 0 {
        lemma_builtins_fill_the_gaps(defs, items, only, (n - 1) as nat, name);
        let before = with_builtins(defs, items, only, (n - 1) as nat);
        let after = with_builtins(defs, items, only, n);
        if items[n - 1].node.name@ == name && !before.contains_key(name) && after.contains_key(
            name,
        ) {
            assert(after[name] == items[n - 1].node@);
        }
    }
}

/// A loaded manifest has each definition of its catalog under the list of its kind, and the built-
/// in ones beside them, except among operations. Effects are known by the effects that it has.
pub proof fn lemma_loaded_manifest_has_its_definitions(
    manifest: crate::air::ManifestView,
    nodes: Map<Seq<char>, EntryView>,
    secrets: Seq<NodeTree>,
    builtins: Builtins,
    name: Seq<char>,
)
    requires
        nodes.contains_key(name),
    ensures
        ({
            let x = assembled(manifest, nodes, secrets, builtins);
            let d = nodes[name].1;
            &&& x.manifest == manifest
            &&& x.secrets == secrets
            &&& d.kind == NodeKind::Module ==> x.modules.contains_key(name) && x.modules[name] == d
            &&& d.kind == NodeKind::Workflow ==> x.workflows.contains_key(name) && x.workflows[name]
                == d
            &&& d.kind == NodeKind::Op ==> x.ops.contains_key(name) && x.ops[name] == d
            &&& d.kind == NodeKind::Effect ==> x.effects.contains_key(name) && x.effects[name] == d
            &&& d.kind == NodeKind::Schema ==> x.schemas.contains_key(name) && x.schemas[name] == d
            &&& d.kind != NodeKind::Op ==> !x.ops.contains_key(name)
            &&& x.effect_catalog == x.effects
        }),
{
    let m = of_kind(nodes, NodeKind::Module);
    let w = of_kind(nodes, NodeKind::Workflow);
    let e = of_kind(nodes, NodeKind::Effect);
    let s = of_kind(nodes, NodeKind::Schema);
    if m.contains_key(name) {
        super::lemma_builtins_do_not_replace(
            m,
            builtins.modules@,
            None,
            builtins.modules@.len(),
            name,
        );
    }
    if w.contains_key(name) {
        super::lemma_builtins_do_not_replace(
            w,
            builtins.workflows@,
            None,
            builtins.workflows@.len(),
            name,
        );
    }
    if e.contains_key(name) {
        super::lemma_builtins_do_not_replace(
            e,
            builtins.effects@,
            None,
            builtins.effects@.len(),
            name,
        );
    }
    if s.contains_key(name) {
        super::lemma_builtins_do_not_replace(
            s,
            builtins.schemas@,
            None,
            builtins.schemas@.len(),
            name,
        );
    }
}

/// Definitions are noted under their names with the digests of their bytes. Two with one name must
/// have the same bytes' digest, and reserved names are refused unless they are allowed.
pub proof fn lemma_digests_are_noted(allow_sys: bool, kind: NodeKind, nodes: Seq<NodeTree>, n: nat)
    requires
        n <= nodes.len(),
    ensures
        hashes_of(allow_sys, kind, nodes, n) is Ok <==> {
            &&& allow_sys || forall|i: int| 0 <= i < n ==> !is_kept((#[trigger] nodes[i]).name)
            &&& forall|i: int, j: int|
                0 <= i < j < n && (#[trigger] nodes[i]).name == (#[trigger] nodes[j]).name
                    ==> hash_text(sha256(nodes[i].bytes)) == hash_text(sha256(nodes[j].bytes))
        },
        hashes_of(allow_sys, kind, nodes, n) matches Ok(m) ==> {
            &&& forall|i: int|
                0 <= i < n ==> m.contains_key((#[trigger] nodes[i]).name) && m[nodes[i].name]
                    == hash_text(sha256(nodes[i].bytes))
            &&& forall|name: Seq<char>| #[trigger]
                m.contains_key(name) ==> exists|i: int|
                    0 <= i < n && (#[trigger] nodes[i]).name == name
        },
    decreases n,
{
    reveal_strlit("sys/");
    if n > 0 {
        lemma_digests_are_noted(allow_sys, kind, nodes, (n - 1) as nat);
        let d = nodes[n - 1];
        assert(crate::air::is_sys(d.name) <==> is_kept(d.name));
        if let Ok(before) = hashes_of(allow_sys, kind, nodes, (n - 1) as nat) {
            if before.contains_key(d.name) {
                let i = choose|i: int| 0 <= i < n - 1 && (#[trigger] nodes[i]).name == d.name;
                assert(before[d.name] == hash_text(sha256(nodes[i].bytes)));
            }
            if let Ok(m) = hashes_of(allow_sys, kind, nodes, n) {
                assert forall|name: Seq<char>| #[trigger] m.contains_key(name) implies exists|i: int|
                    0 <= i < n && (#[trigger] nodes[i]).name == name by {
                    if name == d.name {
                        assert(nodes[n - 1].name == name);
                    } else {
                        assert(before.contains_key(name));
                    }
                }
                assert forall|i: int| 0 <= i < n implies m.contains_key(
                    (#[trigger] nodes[i]).name,
                ) && m[nodes[i].name] == hash_text(sha256(nodes[i].bytes)) by {
                    if i < n - 1 {
                        assert(before.contains_key(nodes[i].name));
                    }
                }
            }
        }
    }
}

/// References keep their names and their order, and get the digests of the definitions that were
/// stored under them, or else of those that come with the kernel. One that nothing is known of
/// fails.
pub proof fn lemma_references_get_their_digests(
    kind: Seq<char>,
    refs: Seq<RefView>,
    hashes: Map<Seq<char>, Seq<char>>,
    builtins: Builtins,
    n: nat,
)
    requires
        n <= refs.len(),
    ensures
        refs_patched(kind, refs, hashes, builtins, n) matches Ok(out) ==> out.len() == n && forall|
            i: int,
        |
            0 <= i < n ==> (#[trigger] out[i]).0 == refs[i].0 && (hashes.contains_key(refs[i].0)
                ==> out[i].1 == hashes[refs[i].0]) && (!hashes.contains_key(refs[i].0)
                ==> is_known(kind, refs[i].0, out[i].1, builtins)),
        (exists|i: int|
            0 <= i < n && !hashes.contains_key((#[trigger] refs[i]).0) && !comes_along(
                builtins.schemas@,
                refs[i].0,
            ) && !comes_along(builtins.workflows@, refs[i].0) && !comes_along(
                builtins.effects@,
                refs[i].0,
            ) && !comes_along(builtins.modules@, refs[i].0)) ==> refs_patched(
            kind,
            refs,
            hashes,
            builtins,
            n,
        ) is Err,
        (forall|i: int| 0 <= i < n ==> hashes.contains_key((#[trigger] refs[i]).0)) ==> refs_patched(
            kind,
            refs,
            hashes,
            builtins,
            n,
        ) is Ok,
    decreases n,
{
    if n > 0 {
        lemma_references_get_their_digests(kind, refs, hashes, builtins, (n - 1) as nat);
        let name = refs[n - 1].0;
        lemma_comes_along(builtins.schemas@, name);
        lemma_comes_along(builtins.workflows@, name);
        lemma_comes_along(builtins.effects@, name);
        lemma_comes_along(builtins.modules@, name);
        lemma_builtin_index(builtins.schemas@, name);
        lemma_builtin_index(builtins.workflows@, name);
        lemma_builtin_index(builtins.effects@, name);
        lemma_builtin_index(builtins.modules@, name);
        if let Ok(out) = refs_patched(kind, refs, hashes, builtins, n) {
            let before = refs_patched(kind, refs, hashes, builtins, (n - 1) as nat)->Ok_0;
            let h = found_hash(kind, name, hashes, builtins)->0;
            if !hashes.contains_key(name) {
                if comes_along(builtins.schemas@, name) {
                    let k = builtin_index(builtins.schemas@, name);
                    assert(is_digest_of(builtins.schemas@, name, h)) by {
                        assert(builtins.schemas@[k].node.name@ == name);
                    }
                } else if kind == "workflow"@ {
                    let k = builtin_index(builtins.workflows@, name);
                    assert(is_digest_of(builtins.workflows@, name, h)) by {
                        assert(builtins.workflows@[k].node.name@ == name);
                    }
                } else if kind == "effect"@ {
                    let k = builtin_index(builtins.effects@, name);
                    assert(is_digest_of(builtins.effects@, name, h)) by {
                        assert(builtins.effects@[k].node.name@ == name);
                    }
                } else {
                    let k = builtin_index(builtins.modules@, name);
                    assert(is_digest_of(builtins.modules@, name, h)) by {
                        assert(builtins.modules@[k].node.name@ == name);
                    }
                }
            }
            assert forall|i: int| 0 <= i < n implies (#[trigger] out[i]).0 == refs[i].0 && (
            hashes.contains_key(refs[i].0) ==> out[i].1 == hashes[refs[i].0]) && (
            !hashes.contains_key(refs[i].0) ==> is_known(kind, refs[i].0, out[i].1, builtins)) by {
                if i < n - 1 {
                    assert(out[i] == before[i]);
                }
            }
        }
    }
}

/// Whether a digest is that of a definition of a name among those that come with the kernel.
pub open spec fn is_digest_of(items: Seq<Builtin>, name: Seq<char>, hash: Seq<char>) -> bool {
    exists|k: int|
        0 <= k < items.len() && (#[trigger] items[k]).node.name@ == name && items[k].hash_ref@
            == hash
}

/// Whether a digest is that of a schema that comes with the kernel, or of a definition of the kind
/// of the list.
pub open spec fn is_known(
    kind: Seq<char>,
    name: Seq<char>,
    hash: Seq<char>,
    builtins: Builtins,
) -> bool {
    ||| is_digest_of(builtins.schemas@, name, hash)
    ||| kind == "workflow"@ && is_digest_of(builtins.workflows@, name, hash)
    ||| kind == "effect"@ && is_digest_of(builtins.effects@, name, hash)
    ||| kind == "module"@ && is_digest_of(builtins.modules@, name, hash)
}

/// The definitions that are stored are those outside the reserved space, in their order.
pub proof fn lemma_own_definitions_are_stored(entries: Seq<(String, AirNode)>, n: nat)
    requires
        n <= entries.len(),
    ensures
        own_defs(entries, n) == Seq::new(n, |i: int| entries[i].1@).filter(
            |d: NodeTree| !is_kept(d.name),
        ),
    decreases n,
{
    reveal(Seq::filter);
    reveal_strlit("sys/");
    let all = Seq::new(n, |i: int| entries[i].1@);
    if n > 0 {
        lemma_own_definitions_are_stored(entries, (n - 1) as nat);
        assert(all.drop_last() =~= Seq::new((n - 1) as nat, |i: int| entries[i].1@));
        assert(all.last() == entries[n - 1].1@);
        assert(crate::air::is_sys(all.last().name) <==> is_kept(all.last().name));
    }
}

/// Of the definitions that a patch brings, the last of a name and a kind counts.
pub proof fn lemma_last_definition_counts(
    nodes: Seq<NodeTree>,
    kind: NodeKind,
    n: nat,
    name: Seq<char>,
)
    requires
        n <= nodes.len(),
    ensures
        defs_of(nodes, kind, n).contains_key(name) <==> exists|i: int|
            0 <= i < n && (#[trigger] nodes[i]).kind == kind && nodes[i].name == name,
        forall|i: int|
            0 <= i < n && (#[trigger] nodes[i]).kind == kind && nodes[i].name == name && (forall|
                j: int,
            |
                i < j < n ==> !((#[trigger] nodes[j]).kind == kind && nodes[j].name == name))
                ==> defs_of(nodes, kind, n)[name] == nodes[i],
    decreases n,
{
    if n > 0 {
        lemma_last_definition_counts(nodes, kind, (n - 1) as nat, name);
        if nodes[n - 1].kind == kind && nodes[n - 1].name == name {
            assert(nodes[n - 1].name == name);
        }
    }
}

/// The definitions that a patch does not bring are read from the store under the digests of the
/// references: each reference has one afterwards, of the right kind, and what was there stays.
pub proof fn lemma_missing_definitions_are_read(
    before: Map<Seq<char>, NodeTree>,
    refs: Seq<RefView>,
    kind: NodeKind,
    stored: Map<Seq<u8>, NodeTree>,
    n: nat,
)
    requires
        n <= refs.len(),
        defs_loaded(before, refs, kind, stored, n) is Some,
    ensures
        ({
            let after = defs_loaded(before, refs, kind, stored, n)->0;
            &&& forall|name: Seq<char>| #[trigger]
                before.contains_key(name) ==> after.contains_key(name) && after[name]
                    == before[name]
            &&& forall|i: int| 0 <= i < n ==> after.contains_key((#[trigger] refs[i]).0)
            &&& forall|name: Seq<char>| #[trigger]
                after.contains_key(name) && !before.contains_key(name) ==> after[name].kind == kind
                    && exists|i: int|
                    0 <= i < n && (#[trigger] refs[i]).0 == name && !all_zero(ref_digest(refs[i]))
                        && stored.contains_key(ref_digest(refs[i])) && after[name]
                        == stored[ref_digest(refs[i])]
        }),
    decreases n,
{
    if n > 0 {
        lemma_missing_definitions_are_read(before, refs, kind, stored, (n - 1) as nat);
        let done = defs_loaded(before, refs, kind, stored, (n - 1) as nat)->0;
        let after = defs_loaded(before, refs, kind, stored, n)->0;
        assert forall|name: Seq<char>| #[trigger]
            after.contains_key(name) && !before.contains_key(name) implies after[name].kind == kind
            && exists|i: int|
            0 <= i < n && (#[trigger] refs[i]).0 == name && !all_zero(ref_digest(refs[i]))
                && stored.contains_key(ref_digest(refs[i])) && after[name]
                == stored[ref_digest(refs[i])] by {
            if done.contains_key(name) {
                assert(after[name] == done[name]);
            } else {
                assert(refs[n - 1].0 == name);
            }
        }
        assert forall|i: int| 0 <= i < n implies after.contains_key((#[trigger] refs[i]).0) by {
            if i < n - 1 {
                assert(done.contains_key(refs[i].0));
            }
        }
    }
}

/// The secrets that a patch brings are its definitions of that kind, in their order.
pub proof fn lemma_secrets_of_a_patch(nodes: Seq<NodeTree>, n: nat)
    requires
        n <= nodes.len(),
    ensures
        secrets_of(nodes, n) is Ok <==> forall|i: int|
            0 <= i < n && (#[trigger] nodes[i]).kind == NodeKind::Secret ==> named_secret(
                nodes[i].name,
            ) is Ok,
        secrets_of(nodes, n) matches Ok(s) ==> s == nodes.take(n as int).filter(
            |d: NodeTree| d.kind == NodeKind::Secret,
        ),
    decreases n,
{
    reveal(Seq::filter);
    let all = nodes.take(n as int);
    if n > 0 {
        lemma_secrets_of_a_patch(nodes, (n - 1) as nat);
        assert(all.drop_last() =~= nodes.take(n - 1));
        assert(all.last() == nodes[n - 1]);
    }
}

/// Whether references of a list have the digests that are noted under their names, and the names
/// that they had.
pub open spec fn have_digests(
    out: Seq<RefView>,
    refs: Seq<RefView>,
    hashes: Map<Seq<char>, Seq<char>>,
) -> bool {
    out.len() == refs.len() && forall|i: int|
        0 <= i < refs.len() ==> (#[trigger] out[i]).0 == refs[i].0 && (hashes.contains_key(refs[i].0)
            ==> out[i].1 == hashes[refs[i].0])
}

/// A manifest that is stored has in each of its lists the digests of the definitions of that kind;
/// everything else in it stays.
pub proof fn lemma_stored_manifest_has_the_digests(
    m: crate::air::ManifestView,
    hashes: StoredHashes,
    builtins: Builtins,
)
    ensures
        manifest_patched(m, hashes, builtins) matches Ok(x) ==> {
            &&& have_digests(x.schemas, m.schemas, deep(hashes.schemas.map()))
            &&& have_digests(x.modules, m.modules, deep(hashes.modules.map()))
            &&& have_digests(x.workflows, m.workflows, deep(hashes.workflows.map()))
            &&& have_digests(x.effects, m.effects, deep(hashes.effects.map()))
            &&& have_digests(x.secrets, m.secrets, deep(hashes.secrets.map()))
            &&& m == crate::air::ManifestView {
                schemas: m.schemas,
                modules: m.modules,
                workflows: m.workflows,
                effects: m.effects,
                secrets: m.secrets,
                ..x
            }
        },
{
    lemma_references_get_their_digests(
        "schema"@,
        m.schemas,
        deep(hashes.schemas.map()),
        builtins,
        m.schemas.len(),
    );
    lemma_references_get_their_digests(
        "module"@,
        m.modules,
        deep(hashes.modules.map()),
        builtins,
        m.modules.len(),
    );
    lemma_references_get_their_digests(
        "workflow"@,
        m.workflows,
        deep(hashes.workflows.map()),
        builtins,
        m.workflows.len(),
    );
    lemma_references_get_their_digests(
        "effect"@,
        m.effects,
        deep(hashes.effects.map()),
        builtins,
        m.effects.len(),
    );
    lemma_references_get_their_digests(
        "secret"@,
        m.secrets,
        deep(hashes.secrets.map()),
        builtins,
        m.secrets.len(),
    );
}

/// The digests that are noted of the definitions of a manifest are those of its own ones: each
/// outside the reserved space is noted under its name with the digest of its bytes.
pub proof fn lemma_own_definitions_are_noted(m: NameMap<AirNode>, kind: NodeKind, i: int)
    requires
        own_hashes(m, kind) is Ok,
        0 <= i < m.list().len(),
        !is_kept(m.list()[i].1.name@),
    ensures
        ({
            let noted = own_hashes(m, kind)->Ok_0;
            let d = m.list()[i].1;
            &&& noted.contains_key(d.name@)
            &&& noted[d.name@] == hash_text(sha256(d.bytes@))
        }),
{
    let entries = m.list();
    let n = entries.len();
    let own = own_defs(entries, n);
    let all = Seq::new(n, |k: int| entries[k].1@);
    let p = |d: NodeTree| !is_kept(d.name);
    lemma_own_definitions_are_stored(entries, n);
    lemma_digests_are_noted(true, kind, own, own.len());
    assert(all[i] == entries[i].1@);
    assert(p(all[i]));
    all.lemma_filter_contains(p, i);
    let k = choose|k: int| 0 <= k < own.len() && own[k] == all[i];
    assert(own[k].name == entries[i].1.name@);
}

/// A manifest is kept as the codec writes it, under the digest of what was written.
pub proof fn lemma_manifest_is_kept_as_written<S: Store<AirNode>, C: ManifestCodec>(
    h: ContentHash,
    mid: S,
    after: S,
    codec: &C,
    manifest: Manifest,
)
    requires
        manifest_kept(Ok(h), mid, after, codec, manifest),
    ensures
        exists|b: Vec<u8>|
            {
                &&& #[trigger] call_ensures(
                    C::encode,
                    (codec, &manifest),
                    Ok::<Vec<u8>, String>(b),
                )
                &&& h@ == sha256(b@)
                &&& after.nodes().contains_key(h@)
                &&& !mid.nodes().contains_key(h@) ==> after.nodes()[h@].kind == NodeKind::Manifest
                    && after.nodes()[h@].bytes == b@
                &&& forall|k: Seq<u8>| #[trigger]
                    mid.nodes().contains_key(k) ==> after.nodes().contains_key(k)
                        && after.nodes()[k] == mid.nodes()[k]
            },
{
    let told = choose|told: Result<Vec<u8>, String>| #[trigger]
        call_ensures(C::encode, (codec, &manifest), told) && match told {
            Err(t) => false,
            Ok(b) => crate::store::node_put(
                mid.nodes(),
                after.nodes(),
                Ok(b@),
                super::manifest_node(b@),
                h@,
            ),
        };
    assert(call_ensures(C::encode, (codec, &manifest), Ok::<Vec<u8>, String>(told->Ok_0)));
}

/// A manifest is loaded only from a catalog, with the definitions of it, and only if the codec
/// finds nothing wrong with them.
pub proof fn lemma_loaded_manifest_was_checked<C: ManifestCodec>(
    x: LoadedManifest,
    codec: &C,
    catalog: Catalog,
    builtins: Builtins,
)
    requires
        checked(Ok(x), codec, catalog, builtins),
    ensures
        x@ == assembled(
            catalog.manifest@,
            deep(catalog.nodes.map()),
            nodes_view(catalog.resolved_secrets@),
            builtins,
        ),
        exists|secrets: NameMap<AirNode>, told: Result<(), String>|
            told is Ok && #[trigger] call_ensures(C::check, (codec, &x, &secrets), told) && deep(
                secrets.map(),
            ) == of_kind(deep(catalog.nodes.map()), NodeKind::Secret),
{
}

/// Secrets that a patch does not bring are read from the store: those that are there stay in front,
/// and each reference has a secret of its name, or the one that the store holds under its digest.
pub proof fn lemma_missing_secrets_are_read(
    before: Seq<NodeTree>,
    refs: Seq<RefView>,
    stored: Map<Seq<u8>, NodeTree>,
    n: nat,
)
    requires
        n <= refs.len(),
        secrets_loaded(before, refs, stored, n) is Some,
    ensures
        ({
            let s = secrets_loaded(before, refs, stored, n)->0;
            &&& before.len() <= s.len()
            &&& s.take(before.len() as int) == before
            &&& forall|k: int|
                before.len() <= k < s.len() ==> (#[trigger] s[k]).kind == NodeKind::Secret
            &&& forall|i: int|
                0 <= i < n ==> is_among(s, #[trigger] refs[i], stored)
        }),
    decreases n,
{
    if n == 0 {
        assert(before.take(before.len() as int) =~= before);
    } else {
        lemma_missing_secrets_are_read(before, refs, stored, (n - 1) as nat);
        let done = secrets_loaded(before, refs, stored, (n - 1) as nat)->0;
        let s = secrets_loaded(before, refs, stored, n)->0;
        assert(s.take(before.len() as int) =~= done.take(before.len() as int));
        assert forall|k: int| 0 <= k < done.len() implies s[k] == done[k] by {}
        assert forall|i: int| 0 <= i < n implies is_among(s, #[trigger] refs[i], stored) by {
            if i < n - 1 {
                let k = choose|k: int|
                    0 <= k < done.len() && is_that((#[trigger] done[k]), refs[i], stored);
                assert(is_that(s[k], refs[i], stored));
            } else if s.len() > done.len() {
                assert(is_that(s[done.len() as int], refs[i], stored));
            } else {
                let k = choose|k: int|
                    0 <= k < done.len() && (#[trigger] done[k]).name == refs[i].0;
                assert(is_that(s[k], refs[i], stored));
            }
        }
    }
}

/// Whether a secret is the one of a reference: by its name, or by the digest that it is stored
/// under.
pub open spec fn is_that(d: NodeTree, r: RefView, stored: Map<Seq<u8>, NodeTree>) -> bool {
    d.name == r.0 || (stored.contains_key(ref_digest(r)) && d == stored[ref_digest(r)])
}

/// Whether the secret of a reference is among secrets.
pub open spec fn is_among(s: Seq<NodeTree>, r: RefView, stored: Map<Seq<u8>, NodeTree>) -> bool {
    exists|k: int| 0 <= k < s.len() && is_that((#[trigger] s[k]), r, stored)
}

/// A patch is loaded with a definition for each of its references to schemas, modules and
/// operations; of those that it brings itself the last of a name counts. It has no effects or
/// workflows of the older kind, and effects are known by the operations.
pub proof fn lemma_patch_is_loaded_with_its_definitions(
    p: PatchView,
    secrets: Seq<NodeTree>,
    builtins: Builtins,
    stored: Map<Seq<u8>, NodeTree>,
)
    requires
        patch_loaded(p, secrets, builtins, stored) is Some,
    ensures
        ({
            let x = patch_loaded(p, secrets, builtins, stored)->0;
            let m = p.manifest;
            &&& x.manifest == m
            &&& forall|i: int|
                0 <= i < m.schemas.len() ==> x.schemas.contains_key((#[trigger] m.schemas[i]).0)
            &&& forall|i: int|
                0 <= i < m.modules.len() ==> x.modules.contains_key((#[trigger] m.modules[i]).0)
            &&& forall|i: int| 0 <= i < m.ops.len() ==> x.ops.contains_key((#[trigger] m.ops[i]).0)
            &&& forall|name: Seq<char>| #[trigger]
                defs_of(p.nodes, NodeKind::Schema, p.nodes.len()).contains_key(name)
                    ==> x.schemas.contains_key(name) && x.schemas[name] == defs_of(
                    p.nodes,
                    NodeKind::Schema,
                    p.nodes.len(),
                )[name]
            &&& forall|name: Seq<char>| #[trigger]
                defs_of(p.nodes, NodeKind::Module, p.nodes.len()).contains_key(name)
                    ==> x.modules.contains_key(name) && x.modules[name] == defs_of(
                    p.nodes,
                    NodeKind::Module,
                    p.nodes.len(),
                )[name]
            &&& x.workflows.dom().is_empty()
            &&& x.effects.dom().is_empty()
            &&& x.effect_catalog == x.ops
            &&& forall|i: int|
                0 <= i < m.secrets.len() ==> is_among(x.secrets, #[trigger] m.secrets[i], stored)
        }),
{
    let m = p.manifest;
    let hs = crate::governance::defs_at_hand(p, m.schemas, builtins.schemas@, NodeKind::Schema);
    let hm = crate::governance::defs_at_hand(p, m.modules, builtins.modules@, NodeKind::Module);
    let ho = crate::governance::defs_at_hand(p, m.ops, builtins.ops@, NodeKind::Op);
    lemma_missing_definitions_are_read(hs, m.schemas, NodeKind::Schema, stored, m.schemas.len());
    lemma_missing_definitions_are_read(hm, m.modules, NodeKind::Module, stored, m.modules.len());
    lemma_missing_definitions_are_read(ho, m.ops, NodeKind::Op, stored, m.ops.len());
    lemma_missing_secrets_are_read(secrets, m.secrets, stored, m.secrets.len());
    let x = patch_loaded(p, secrets, builtins, stored)->0;
    let ops = defs_loaded(ho, m.ops, NodeKind::Op, stored, m.ops.len())->0;
    assert forall|i: int| 0 <= i < m.ops.len() implies x.ops.contains_key((#[trigger] m.ops[i]).0) by {
        assert(ops.contains_key(m.ops[i].0));
        assert(ops != Map::<Seq<char>, NodeTree>::empty());
    }
    let own = defs_of(p.nodes, NodeKind::Schema, p.nodes.len());
    assert forall|name: Seq<char>| #[trigger] own.contains_key(name) implies x.schemas.contains_key(
        name,
    ) && x.schemas[name] == own[name] by {
        super::lemma_builtins_do_not_replace(
            own,
            builtins.schemas@,
            Some(m.schemas),
            builtins.schemas@.len(),
            name,
        );
        assert(hs.contains_key(name));
    }
    let owm = defs_of(p.nodes, NodeKind::Module, p.nodes.len());
    assert forall|name: Seq<char>| #[trigger] owm.contains_key(name) implies x.modules.contains_key(
        name,
    ) && x.modules[name] == owm[name] by {
        super::lemma_builtins_do_not_replace(
            owm,
            builtins.modules@,
            Some(m.modules),
            builtins.modules@.len(),
            name,
        );
        assert(hm.contains_key(name));
    }
}

} // verus!
