//! Putting manifest patches in canonical form, and telling manifests apart.
use vstd::prelude::*;

use crate::air::{builtin_index, find_builtin, is_builtin, refs_view, AirNode, Builtin, Builtins,
    Manifest, ManifestView, NamedRef, NodeKind, NodeTree, RefView};
use crate::error::KernelError;
use crate::governance::{nodes_view, ManifestPatch, PatchView};
use crate::hash::{hash_text, hex_bytes, sha256, ContentHash, HashRef};
use crate::store::{read_fails, Store};
use crate::text::str_eq;

verus! {

/// How a reference differs between two manifests.
#[derive(Clone, Copy, Debug, PartialEq, Eq, Structural)]
pub enum NamedRefDiffKind {
    Added,
    Removed,
    Changed,
}

/// A reference that differs between two manifests.
#[derive(Clone, Debug, PartialEq, Eq)]
pub struct NamedRefDiff {
    pub name: String,
    pub change: NamedRefDiffKind,
}

/// The digest that a list of references has for `name`; of several the last one counts.
pub open spec fn ref_lookup(refs: Seq<RefView>, name: Seq<char>) -> Option<Seq<char>>
    decreases refs.len(),
{
    if refs.len() == 0 {
        None
    } else if refs.last().0 == name {
        Some(refs.last().1)
    } else {
        ref_lookup(refs.drop_last(), name)
    }
}

/// How the reference `name` differs between two lists.
pub open spec fn ref_change(current: Seq<RefView>, candidate: Seq<RefView>, name: Seq<char>) -> Option<
    NamedRefDiffKind,
> {
    match (ref_lookup(current, name), ref_lookup(candidate, name)) {
        (None, Some(_)) => Some(NamedRefDiffKind::Added),
        (Some(_), None) => Some(NamedRefDiffKind::Removed),
        (Some(a), Some(b)) => if a != b {
            Some(NamedRefDiffKind::Changed)
        } else {
            None
        },
        (None, None) => None,
    }
}

proof fn lemma_lookup_first(refs: Seq<RefView>, k: int)
    requires
        0 <= k < refs.len(),
    ensures
        ref_lookup(refs, refs[k].0) is Some,
    decreases refs.len(),
{
    if k < refs.len() - 1 {
        lemma_lookup_first(refs.drop_last(), k);
    }
}

proof fn lemma_lookup_has(refs: Seq<RefView>, name: Seq<char>)
    requires
        ref_lookup(refs, name) is Some,
    ensures
        exists|k: int| 0 <= k < refs.len() && (#[trigger] refs[k]).0 == name,
    decreases refs.len(),
{
    if refs.last().0 == name {
        assert(refs[refs.len() - 1].0 == name);
    } else {
        lemma_lookup_has(refs.drop_last(), name);
        let k = choose|k: int|
            0 <= k < refs.drop_last().len() && (#[trigger] refs.drop_last()[k]).0 == name;
        assert(refs[k].0 == name);
    }
}

/// The last reference named `name`.
fn lookup_ref<'a>(refs: &'a Vec<NamedRef>, name: &str) -> (r: Option<&'a NamedRef>)
    ensures
        match (r, ref_lookup(refs_view(refs@), name@)) {
            (Some(x), Some(h)) => x.hash@ == h,
            (None, None) => true,
            _ => false,
        },
{
    let ghost s = refs_view(refs@);
    let mut i: usize = refs.len();
    assert(s.take(i as int) =~= s);
    while i > 0
        invariant
            i <= refs@.len(),
            s == refs_view(refs@),
            ref_lookup(s, name@) == ref_lookup(s.take(i as int), name@),
        decreases i,
    {
        assert(s.take(i as int).last() == refs@[i - 1]@);
        if str_eq(refs[i - 1].name.as_str(), name) {
            return Some(&refs[i - 1]);
        }
        assert(s.take(i as int).drop_last() =~= s.take(i - 1));
        i -= 1;
    }
    None
}

/// Whether `diffs` tells `name` apart in the way `kind`.
pub open spec fn tells(diffs: Seq<NamedRefDiff>, name: Seq<char>, kind: NamedRefDiffKind) -> bool {
    exists|k: int|
        0 <= k < diffs.len() && (#[trigger] diffs[k]).name@ == name && diffs[k].change == kind
}

/// Whether `diffs` holds each difference once and nothing else.
pub open spec fn exact_diffs(
    diffs: Seq<NamedRefDiff>,
    current: Seq<RefView>,
    candidate: Seq<RefView>,
) -> bool {
    &&& forall|i: int, j: int|
        0 <= i < j < diffs.len() ==> (#[trigger] diffs[i]).name@ != (#[trigger] diffs[j]).name@
    &&& forall|i: int|
        0 <= i < diffs.len() ==> ref_change(current, candidate, (#[trigger] diffs[i]).name@)
            == Some(diffs[i].change)
    &&& forall|name: Seq<char>| #[trigger]
        ref_change(current, candidate, name) is Some ==> tells(
            diffs,
            name,
            ref_change(current, candidate, name)->0,
        )
}

fn has_diff(diffs: &Vec<NamedRefDiff>, name: &str) -> (r: bool)
    ensures
        r == exists|k: int| 0 <= k < diffs@.len() && (#[trigger] diffs@[k]).name@ == name@,
{
    let mut i: usize = 0;
    while i < diffs.len()
        invariant
            i <= diffs@.len(),
            forall|k: int| 0 <= k < i ==> (#[trigger] diffs@[k]).name@ != name@,
        decreases diffs@.len() - i,
    {
        if str_eq(diffs[i].name.as_str(), name) {
            return true;
        }
        i += 1;
    }
    false
}

/// The state of a walk over `seen` of the references.
spec fn walk(
    deltas: Seq<NamedRefDiff>,
    cur: Seq<RefView>,
    can: Seq<RefView>,
    seen_can: int,
    seen_cur: int,
) -> bool {
    &&& forall|a: int, b: int|
        0 <= a < b < deltas.len() ==> (#[trigger] deltas[a]).name@ != (#[trigger] deltas[b]).name@
    &&& forall|a: int|
        0 <= a < deltas.len() ==> ref_change(cur, can, (#[trigger] deltas[a]).name@) == Some(
            deltas[a].change,
        )
    &&& forall|k: int|
        0 <= k < seen_can && ref_change(cur, can, (#[trigger] can[k]).0) is Some ==> tells(
            deltas,
            can[k].0,
            ref_change(cur, can, can[k].0)->0,
        )
    &&& forall|k: int|
        0 <= k < seen_cur && ref_change(cur, can, (#[trigger] cur[k]).0) is Some ==> tells(
            deltas,
            cur[k].0,
            ref_change(cur, can, cur[k].0)->0,
        )
}

/// Notes the difference at `name`, if there is one and it is not noted yet.
fn note(
    deltas: &mut Vec<NamedRefDiff>,
    current: &Vec<NamedRef>,
    candidate: &Vec<NamedRef>,
    name: &String,
    Ghost(seen): Ghost<(int, int)>,
)
    requires
        walk(
            old(deltas)@,
            refs_view(current@),
            refs_view(candidate@),
            seen.0,
            seen.1,
        ),
    ensures
        walk(final(deltas)@, refs_view(current@), refs_view(candidate@), seen.0, seen.1),
        ref_change(refs_view(current@), refs_view(candidate@), name@) is Some ==> tells(
            final(deltas)@,
            name@,
            ref_change(refs_view(current@), refs_view(candidate@), name@)->0,
        ),
{
    let ghost cur = refs_view(current@);
    let ghost can = refs_view(candidate@);
    let ghost before = deltas@;
    let change = match (lookup_ref(current, name.as_str()), lookup_ref(candidate, name.as_str())) {
        (None, Some(_)) => Some(NamedRefDiffKind::Added),
        (Some(_), None) => Some(NamedRefDiffKind::Removed),
        (Some(a), Some(b)) => if str_eq(a.hash.as_str(), b.hash.as_str()) {
            None
        } else {
            Some(NamedRefDiffKind::Changed)
        },
        (None, None) => None,
    };
    assert(change == ref_change(cur, can, name@));
    if let Some(kind) = change {
        if has_diff(deltas, name.as_str()) {
            proof {
                let k = choose|k: int|
                    0 <= k < deltas@.len() && (#[trigger] deltas@[k]).name@ == name@;
                assert(tells(deltas@, name@, kind));
            }
        } else {
            deltas.push(NamedRefDiff { name: name.clone(), change: kind });
            proof {
                let after = deltas@;
                assert(after[after.len() - 1].name@ == name@);
                assert(tells(after, name@, kind));
                assert forall|n: Seq<char>, c: NamedRefDiffKind| #[trigger]
                    tells(before, n, c) implies tells(after, n, c) by {
                    let k = choose|k: int|
                        0 <= k < before.len() && (#[trigger] before[k]).name@ == n
                            && before[k].change == c;
                    assert(after[k] == before[k]);
                }
                assert forall|a: int| 0 <= a < after.len() implies ref_change(
                    cur,
                    can,
                    (#[trigger] after[a]).name@,
                ) == Some(after[a].change) by {
                    if a < before.len() {
                        assert(after[a] == before[a]);
                    }
                }
                assert forall|a: int, b: int| 0 <= a < b < after.len() implies (
                #[trigger] after[a]).name@ != (#[trigger] after[b]).name@ by {
                    assert(after[a] == before[a]);
                    if b < before.len() {
                        assert(after[b] == before[b]);
                    }
                }
                assert(walk(after, cur, can, seen.0, seen.1));
            }
        }
    }
}

/// The references that were added, removed or changed on the way from `current` to `candidate`,
/// each once.
pub fn diff_named_refs(current: &Vec<NamedRef>, candidate: &Vec<NamedRef>) -> (r: Vec<
    NamedRefDiff,
>)
    ensures
        exact_diffs(r@, refs_view(current@), refs_view(candidate@)),
{
    let ghost cur = refs_view(current@);
    let ghost can = refs_view(candidate@);
    let mut deltas: Vec<NamedRefDiff> = Vec::new();
    let mut i: usize = 0;
    while i < candidate.len()
        invariant
            i <= candidate@.len(),
            cur == refs_view(current@),
            can == refs_view(candidate@),
            walk(deltas@, cur, can, i as int, 0),
        decreases candidate@.len() - i,
    {
        note(&mut deltas, current, candidate, &candidate[i].name, Ghost((i as int, 0)));
        assert(can[i as int].0 == candidate@[i as int].name@);
        i += 1;
    }
    let mut j: usize = 0;
    while j < current.len()
        invariant
            i == candidate@.len(),
            j <= current@.len(),
            cur == refs_view(current@),
            can == refs_view(candidate@),
            walk(deltas@, cur, can, i as int, j as int),
        decreases current@.len() - j,
    {
        note(&mut deltas, current, candidate, &current[j].name, Ghost((i as int, j as int)));
        assert(cur[j as int].0 == current@[j as int].name@);
        j += 1;
    }
    proof {
        assert forall|name: Seq<char>| #[trigger] ref_change(cur, can, name) is Some implies tells(
            deltas@,
            name,
            ref_change(cur, can, name)->0,
        ) by {
            if ref_lookup(can, name) is Some {
                lemma_lookup_has(can, name);
            } else {
                lemma_lookup_has(cur, name);
            }
        }
    }
    deltas
}

/// A manifest compared with itself shows no difference.
pub proof fn lemma_no_change_from_self(refs: Seq<RefView>, diffs: Seq<NamedRefDiff>)
    requires
        exact_diffs(diffs, refs, refs),
    ensures
        diffs.len() == 0,
{
    if diffs.len() > 0 {
        assert(ref_change(refs, refs, diffs[0].name@) == Some(diffs[0].change));
    }
}

/// Taken in the other direction, what was added is removed, what was removed is added, and what
/// was changed is changed.
pub proof fn lemma_change_reverses(a: Seq<RefView>, b: Seq<RefView>, name: Seq<char>)
    ensures
        ref_change(a, b, name) == Some(NamedRefDiffKind::Added) <==> ref_change(b, a, name)
            == Some(NamedRefDiffKind::Removed),
        ref_change(a, b, name) == Some(NamedRefDiffKind::Changed) <==> ref_change(b, a, name)
            == Some(NamedRefDiffKind::Changed),
        ref_change(a, b, name) is None <==> ref_change(b, a, name) is None,
{
}

/// The last definition named `name`, of one kind or of any.
pub open spec fn last_named(
    nodes: Seq<NodeTree>,
    kind: Option<NodeKind>,
    name: Seq<char>,
) -> Option<NodeTree>
    decreases nodes.len(),
{
    if nodes.len() == 0 {
        None
    } else {
        let n = nodes.last();
        if n.kind != NodeKind::Manifest && n.name == name && (kind is None || kind == Some(n.kind)) {
            Some(n)
        } else {
            last_named(nodes.drop_last(), kind, name)
        }
    }
}

fn find_last_named<'a>(nodes: &'a Vec<AirNode>, kind: Option<NodeKind>, name: &str) -> (r: Option<
    &'a AirNode,
>)
    ensures
        match (r, last_named(nodes_view(nodes@), kind, name@)) {
            (Some(x), Some(t)) => x@ == t,
            (None, None) => true,
            _ => false,
        },
{
    let ghost s = nodes_view(nodes@);
    let mut i: usize = nodes.len();
    assert(s.take(i as int) =~= s);
    while i > 0
        invariant
            i <= nodes@.len(),
            s == nodes_view(nodes@),
            last_named(s, kind, name@) == last_named(s.take(i as int), kind, name@),
        decreases i,
    {
        assert(s.take(i as int).last() == nodes@[i - 1]@);
        let node = &nodes[i - 1];
        let fits = match kind {
            None => true,
            Some(k) => k == node.kind,
        };
        if node.kind != NodeKind::Manifest && str_eq(node.name.as_str(), name) && fits {
            return Some(node);
        }
        assert(s.take(i as int).drop_last() =~= s.take(i - 1));
        i -= 1;
    }
    None
}

/// A reference with the digest of its definition: the built-in one of that name, else the last of
/// `nodes` with that name, else as it was.
pub open spec fn settled_ref(
    r: RefView,
    builtins: Seq<Builtin>,
    nodes: Seq<NodeTree>,
    kind: Option<NodeKind>,
) -> RefView {
    if is_builtin(builtins, r.0) {
        (r.0, builtins[builtin_index(builtins, r.0)].hash_ref@)
    } else {
        match last_named(nodes, kind, r.0) {
            Some(n) => (r.0, hash_text(sha256(n.bytes))),
            None => r,
        }
    }
}

/// References with the digests of their definitions.
pub open spec fn settled_refs(
    refs: Seq<RefView>,
    builtins: Seq<Builtin>,
    nodes: Seq<NodeTree>,
    kind: Option<NodeKind>,
) -> Seq<RefView> {
    Seq::new(refs.len(), |i: int| settled_ref(refs[i], builtins, nodes, kind))
}

fn settle_refs(
    refs: &mut Vec<NamedRef>,
    builtins: &Vec<Builtin>,
    nodes: &Vec<AirNode>,
    kind: Option<NodeKind>,
)
    ensures
        refs_view(final(refs)@) == settled_refs(
            refs_view(old(refs)@),
            builtins@,
            nodes_view(nodes@),
            kind,
        ),
{
    let ghost start = refs_view(refs@);
    let ghost target = settled_refs(start, builtins@, nodes_view(nodes@), kind);
    let n: usize = refs.len();
    let mut i: usize = 0;
    while i < n
        invariant
            i <= n,
            n == refs@.len(),
            start.len() == n,
            target == settled_refs(start, builtins@, nodes_view(nodes@), kind),
            forall|k: int| 0 <= k < i ==> (#[trigger] refs@[k])@ == target[k],
            forall|k: int| i <= k < n ==> (#[trigger] refs@[k])@ == start[k],
        decreases n - i,
    {
        let name = refs[i].name.clone();
        assert(refs@[i as int]@ == start[i as int]);
        if let Some(b) = find_builtin(builtins, name.as_str()) {
            refs.set(i, NamedRef { name, hash: b.hash_ref.clone() });
        } else if let Some(node) = find_last_named(nodes, kind, name.as_str()) {
            let hash = HashRef::of_hash(&node.hash());
            refs.set(i, NamedRef { name, hash });
        }
        i += 1;
    }
    assert(refs_view(refs@) =~= target);
}

/// A patch whose references to the definitions it brings, and to built-in ones, have their
/// digests.
pub open spec fn normalized(p: PatchView, builtins: Builtins) -> PatchView {
    PatchView {
        manifest: ManifestView {
            schemas: settled_refs(
                p.manifest.schemas,
                builtins.schemas@,
                p.nodes,
                Some(NodeKind::Schema),
            ),
            modules: settled_refs(
                p.manifest.modules,
                builtins.modules@,
                p.nodes,
                Some(NodeKind::Module),
            ),
            effects: settled_refs(
                p.manifest.effects,
                builtins.effects@,
                p.nodes,
                Some(NodeKind::Effect),
            ),
            caps: settled_refs(p.manifest.caps, builtins.caps@, p.nodes, Some(NodeKind::Cap)),
            policies: settled_refs(
                p.manifest.policies,
                Seq::empty(),
                p.nodes,
                Some(NodeKind::Policy),
            ),
            ..p.manifest
        },
        nodes: p.nodes,
    }
}

pub fn normalize_patch_manifest_refs(patch: &mut ManifestPatch, builtins: &Builtins)
    ensures
        final(patch)@ == normalized(old(patch)@, *builtins),
{
    let none: Vec<Builtin> = Vec::new();
    assert(none@ =~= Seq::empty());
    settle_refs(
        &mut patch.manifest.schemas,
        &builtins.schemas,
        &patch.nodes,
        Some(NodeKind::Schema),
    );
    settle_refs(
        &mut patch.manifest.modules,
        &builtins.modules,
        &patch.nodes,
        Some(NodeKind::Module),
    );
    settle_refs(
        &mut patch.manifest.effects,
        &builtins.effects,
        &patch.nodes,
        Some(NodeKind::Effect),
    );
    settle_refs(&mut patch.manifest.caps, &builtins.caps, &patch.nodes, Some(NodeKind::Cap));
    settle_refs(&mut patch.manifest.policies, &none, &patch.nodes, Some(NodeKind::Policy));
}

/// Putting a patch in canonical form twice changes nothing more.
pub proof fn lemma_normalized_is_stable(p: PatchView, builtins: Builtins)
    ensures
        normalized(normalized(p, builtins), builtins) == normalized(p, builtins),
{
    let once = normalized(p, builtins);
    let twice = normalized(once, builtins);
    assert(twice.manifest.schemas =~= once.manifest.schemas);
    assert(twice.manifest.modules =~= once.manifest.modules);
    assert(twice.manifest.effects =~= once.manifest.effects);
    assert(twice.manifest.caps =~= once.manifest.caps);
    assert(twice.manifest.policies =~= once.manifest.policies);
}

/// The references of a manifest with the digests of the definitions in `nodes`, by name alone.
pub open spec fn rewritten(m: ManifestView, nodes: Seq<NodeTree>) -> ManifestView {
    ManifestView {
        schemas: settled_refs(m.schemas, Seq::empty(), nodes, None),
        modules: settled_refs(m.modules, Seq::empty(), nodes, None),
        ops: settled_refs(m.ops, Seq::empty(), nodes, None),
        secrets: settled_refs(m.secrets, Seq::empty(), nodes, None),
        ..m
    }
}

pub fn rewrite_manifest_refs(manifest: &mut Manifest, nodes: &Vec<AirNode>)
    ensures
        final(manifest)@ == rewritten(old(manifest)@, nodes_view(nodes@)),
{
    let none: Vec<Builtin> = Vec::new();
    assert(none@ =~= Seq::empty());
    settle_refs(&mut manifest.schemas, &none, nodes, None);
    settle_refs(&mut manifest.modules, &none, nodes, None);
    settle_refs(&mut manifest.ops, &none, nodes, None);
    settle_refs(&mut manifest.secrets, &none, nodes, None);
}

/// Whether all bytes are zero.
pub open spec fn all_zero(bytes: Seq<u8>) -> bool {
    forall|i: int| 0 <= i < bytes.len() ==> #[trigger] bytes[i] == 0
}

pub fn is_zero_hash(hash: &ContentHash) -> (r: bool)
    ensures
        r == all_zero(hash@),
{
    let bytes = hash.as_bytes();
    let mut i: usize = 0;
    while i < 32
        invariant
            i <= 32,
            bytes@ == hash@,
            forall|k: int| 0 <= k < i ==> #[trigger] bytes@[k] == 0,
        decreases 32 - i,
    {
        if bytes[i] != 0 {
            assert(hash@[i as int] != 0);
            return false;
        }
        i += 1;
    }
    assert(bytes@.len() == 32);
    true
}

/// The digest in a reference, unless it is the digest of zeros.
pub open spec fn nonzero_hash(text: Seq<char>) -> Option<Seq<u8>> {
    let h = hex_bytes(text.skip(7));
    if all_zero(h) {
        None
    } else {
        Some(h)
    }
}

fn parse_nonzero_hash(value: &HashRef) -> (r: Option<ContentHash>)
    ensures
        match (r, nonzero_hash(value@)) {
            (Some(h), Some(b)) => h@ == b,
            (None, None) => true,
            _ => false,
        },
{
    match ContentHash::from_hex_str(value.as_str()) {
        Ok(h) => if is_zero_hash(&h) {
            None
        } else {
            Some(h)
        },
        Err(_) => None,
    }
}

/// Whether a schema reference can be settled without asking the store: it is built in, the patch
/// brings it, or its digest is not known yet.
pub open spec fn schema_at_hand(r: RefView, builtins: Seq<Builtin>, nodes: Seq<NodeTree>) -> bool {
    is_builtin(builtins, r.0) || last_named(nodes, Some(NodeKind::Schema), r.0) is Some
        || nonzero_hash(r.1) is None
}

/// Whether an error is that of a store that was asked for a schema that is not at hand.
pub open spec fn schema_unread<S: Store<AirNode>>(
    e: KernelError,
    store: S,
    schemas: Seq<RefView>,
    builtins: Seq<Builtin>,
    nodes: Seq<NodeTree>,
) -> bool {
    exists|i: int|
        0 <= i < schemas.len() && !schema_at_hand(#[trigger] schemas[i], builtins, nodes)
            && nonzero_hash(schemas[i].1) is Some && e is Store && read_fails::<AirNode, S>(
            store,
            nonzero_hash(schemas[i].1)->Some_0,
            e->Store_0,
        )
}

/// Whether the schemas that a manifest refers to can be had. A schema that the store gives counts
/// under the name in its definition.
fn check_schemas<S: Store<AirNode>>(
    store: &S,
    refs: &Vec<NamedRef>,
    builtins: &Vec<Builtin>,
    nodes: &Vec<AirNode>,
) -> (r: Result<(), KernelError>)
    ensures
        r matches Err(e) ==> schema_unread(
            e,
            *store,
            refs_view(refs@),
            builtins@,
            nodes_view(nodes@),
        ),
        (forall|i: int|
            0 <= i < refs@.len() ==> schema_at_hand(
                (#[trigger] refs@[i])@,
                builtins@,
                nodes_view(nodes@),
            )) ==> r is Ok,
{
    let mut loaded: Vec<AirNode> = Vec::new();
    let mut i: usize = 0;
    while i < refs.len()
        invariant
            i <= refs@.len(),
        decreases refs@.len() - i,
    {
        let name = refs[i].name.as_str();
        let known = find_builtin(builtins, name).is_some() || find_last_named(
            nodes,
            Some(NodeKind::Schema),
            name,
        ).is_some() || find_last_named(&loaded, Some(NodeKind::Schema), name).is_some();
        if !known {
            if let Some(hash) = parse_nonzero_hash(&refs[i].hash) {
                assert(!schema_at_hand(refs@[i as int]@, builtins@, nodes_view(nodes@)));
                match store.get_node(hash) {
                    Ok(node) => {
                        loaded.push(node);
                    },
                    Err(e) => {
                        proof {
                            let at = refs_view(refs@)[i as int];
                            assert(at == refs@[i as int]@);
                            assert(read_fails::<AirNode, S>(*store, nonzero_hash(at.1)->Some_0, e));
                        }
                        return Err(KernelError::Store(e));
                    },
                }
            }
        }
        i += 1;
    }
    Ok(())
}

/// Puts a patch in canonical form. The store is asked for schemas that the patch neither brings
/// nor has built in; where it fails, so does this.
pub fn canonicalize_patch<S: Store<AirNode>>(
    store: &S,
    patch: ManifestPatch,
    builtins: &Builtins,
) -> (r: Result<ManifestPatch, KernelError>)
    ensures
        match r {
            Ok(p) => p@ == normalized(patch@, *builtins),
            Err(e) => schema_unread(
                e,
                *store,
                patch@.manifest.schemas,
                builtins.schemas@,
                patch@.nodes,
            ),
        },
        (forall|i: int|
            0 <= i < patch@.manifest.schemas.len() ==> schema_at_hand(
                #[trigger] patch@.manifest.schemas[i],
                builtins.schemas@,
                patch@.nodes,
            )) ==> r is Ok,
{
    proof {
        assert forall|i: int|
            0 <= i < patch.manifest.schemas@.len() implies refs_view(patch.manifest.schemas@)[i]
            == (#[trigger] patch.manifest.schemas@[i])@ by {}
    }
    match check_schemas(store, &patch.manifest.schemas, &builtins.schemas, &patch.nodes) {
        Ok(_) => {},
        Err(e) => {
            return Err(e);
        },
    }
    let mut canonical = patch;
    normalize_patch_manifest_refs(&mut canonical, builtins);
    Ok(canonical)
}

/// Whether `hash` is what a list has for a name: the digest of the last reference with it.
pub open spec fn has_last(refs: Seq<RefView>, name: Seq<char>, hash: Seq<char>) -> bool {
    exists|k: int|
        0 <= k < refs.len() && #[trigger] refs[k] == (name, hash) && forall|j: int|
            k < j < refs.len() ==> (#[trigger] refs[j]).0 != name
}

/// Whether a list has no reference with a name.
pub open spec fn lacks(refs: Seq<RefView>, name: Seq<char>) -> bool {
    forall|i: int| 0 <= i < refs.len() ==> (#[trigger] refs[i]).0 != name
}

proof fn lemma_lookup_is_last(refs: Seq<RefView>, name: Seq<char>)
    ensures
        match ref_lookup(refs, name) {
            None => lacks(refs, name) && forall|g: Seq<char>| !#[trigger] has_last(refs, name, g),
            Some(h) => has_last(refs, name, h) && !lacks(refs, name) && forall|g: Seq<char>|
                #[trigger] has_last(refs, name, g) ==> g == h,
        },
    decreases refs.len(),
{
    if refs.len() > 0 {
        let front = refs.drop_last();
        let n = refs.len() - 1;
        lemma_lookup_is_last(front, name);
        if refs.last().0 == name {
            assert(refs[n] == (name, refs.last().1));
            assert(refs[n].0 == name);
        } else {
            assert forall|g: Seq<char>| has_last(refs, name, g) <==> #[trigger] has_last(
                front,
                name,
                g,
            ) by {
                if has_last(refs, name, g) {
                    let k = choose|k: int|
                        0 <= k < refs.len() && #[trigger] refs[k] == (name, g) && forall|j: int|
                            k < j < refs.len() ==> (#[trigger] refs[j]).0 != name;
                    assert(front[k] == (name, g));
                    assert forall|j: int| k < j < front.len() implies (#[trigger] front[j]).0
                        != name by {
                        assert(front[j] == refs[j]);
                    }
                }
                if has_last(front, name, g) {
                    let k = choose|k: int|
                        0 <= k < front.len() && #[trigger] front[k] == (name, g) && forall|j: int|
                            k < j < front.len() ==> (#[trigger] front[j]).0 != name;
                    assert(refs[k] == (name, g));
                    assert forall|j: int| k < j < refs.len() implies (#[trigger] refs[j]).0
                        != name by {
                        if j < n {
                            assert(front[j] == refs[j]);
                        }
                    }
                }
            }
            match ref_lookup(front, name) {
                None => {
                    assert forall|i: int| 0 <= i < refs.len() implies (#[trigger] refs[i]).0
                        != name by {
                        if i < n {
                            assert(front[i] == refs[i]);
                        }
                    }
                    assert forall|g: Seq<char>| !#[trigger] has_last(refs, name, g) by {
                        assert(!has_last(front, name, g));
                    }
                },
                Some(h) => {
                    assert(has_last(front, name, h));
                    let k = choose|k: int|
                        0 <= k < front.len() && #[trigger] front[k] == (name, h);
                    assert(refs[k].0 == name);
                    assert forall|g: Seq<char>| #[trigger] has_last(refs, name, g) implies g
                        == h by {
                        assert(has_last(front, name, g));
                    }
                },
            }
        }
    }
}

/// A reference was added where only the new list has its name, removed where only the old one has
/// it, changed where both have it with other digests, and is else unchanged.
pub proof fn lemma_change_is_told(
    current: Seq<RefView>,
    candidate: Seq<RefView>,
    name: Seq<char>,
    a: Seq<char>,
    b: Seq<char>,
)
    ensures
        lacks(current, name) && lacks(candidate, name) ==> ref_change(current, candidate, name) is None,
        lacks(current, name) && has_last(candidate, name, b) ==> ref_change(
            current,
            candidate,
            name,
        ) == Some(NamedRefDiffKind::Added),
        has_last(current, name, a) && lacks(candidate, name) ==> ref_change(
            current,
            candidate,
            name,
        ) == Some(NamedRefDiffKind::Removed),
        has_last(current, name, a) && has_last(candidate, name, b) ==> ref_change(
            current,
            candidate,
            name,
        ) == if a != b {
            Some(NamedRefDiffKind::Changed)
        } else {
            None
        },
{
    lemma_lookup_is_last(current, name);
    lemma_lookup_is_last(candidate, name);
}

/// Whether a definition is the last one in a list with a name, of one kind or of any; manifests do
/// not count.
pub open spec fn is_last_def(
    nodes: Seq<NodeTree>,
    kind: Option<NodeKind>,
    name: Seq<char>,
    d: NodeTree,
) -> bool {
    exists|k: int|
        0 <= k < nodes.len() && #[trigger] nodes[k] == d && is_def_of(d, kind, name) && forall|
            j: int,
        |
            k < j < nodes.len() ==> !is_def_of(#[trigger] nodes[j], kind, name)
}

/// Whether a definition has a name, and the kind where one is asked for.
pub open spec fn is_def_of(d: NodeTree, kind: Option<NodeKind>, name: Seq<char>) -> bool {
    d.kind != NodeKind::Manifest && d.name == name && (kind matches Some(k) ==> d.kind == k)
}

proof fn lemma_last_def(nodes: Seq<NodeTree>, kind: Option<NodeKind>, name: Seq<char>)
    ensures
        match last_named(nodes, kind, name) {
            Some(d) => is_last_def(nodes, kind, name, d),
            None => forall|i: int|
                0 <= i < nodes.len() ==> !is_def_of(#[trigger] nodes[i], kind, name),
        },
    decreases nodes.len(),
{
    if nodes.len() > 0 {
        let front = nodes.drop_last();
        lemma_last_def(front, kind, name);
        if is_def_of(nodes.last(), kind, name) {
            assert(nodes[nodes.len() - 1] == nodes.last());
        } else {
            match last_named(front, kind, name) {
                Some(d) => {
                    let k = choose|k: int|
                        0 <= k < front.len() && #[trigger] front[k] == d && is_def_of(d, kind, name)
                            && forall|j: int|
                            k < j < front.len() ==> !is_def_of(#[trigger] front[j], kind, name);
                    assert(nodes[k] == d);
                    assert forall|j: int| k < j < nodes.len() implies !is_def_of(
                        #[trigger] nodes[j],
                        kind,
                        name,
                    ) by {
                        if j < front.len() {
                            assert(front[j] == nodes[j]);
                        }
                    }
                },
                None => {
                    assert forall|i: int| 0 <= i < nodes.len() implies !is_def_of(
                        #[trigger] nodes[i],
                        kind,
                        name,
                    ) by {
                        if i < front.len() {
                            assert(front[i] == nodes[i]);
                        }
                    }
                },
            }
        }
    }
}

/// References keep their names and their order. One to a built-in definition has the digest of that,
/// one to a definition that comes along has the digest of its bytes, and any other stays as it is.
pub proof fn lemma_references_are_settled(
    refs: Seq<RefView>,
    builtins: Seq<Builtin>,
    nodes: Seq<NodeTree>,
    kind: Option<NodeKind>,
    i: int,
)
    requires
        0 <= i < refs.len(),
    ensures
        ({
            let after = settled_refs(refs, builtins, nodes, kind);
            let name = refs[i].0;
            let built_in = exists|k: int|
                0 <= k < builtins.len() && (#[trigger] builtins[k]).node.name@ == name;
            let brought = exists|k: int|
                0 <= k < nodes.len() && is_def_of(#[trigger] nodes[k], kind, name);
            &&& after.len() == refs.len()
            &&& after[i].0 == name
            &&& built_in ==> exists|k: int|
                0 <= k < builtins.len() && (#[trigger] builtins[k]).node.name@ == name && after[i].1
                    == builtins[k].hash_ref@
            &&& !built_in && brought ==> exists|d: NodeTree| #[trigger]
                is_last_def(nodes, kind, name, d) && after[i].1 == hash_text(sha256(d.bytes))
            &&& !built_in && !brought ==> after[i] == refs[i]
        }),
{
    let name = refs[i].0;
    crate::air::lemma_builtin_index(builtins, name);
    lemma_last_def(nodes, kind, name);
    let b = builtin_index(builtins, name);
    if b < builtins.len() {
        assert(builtins[b].node.name@ == name);
    } else {
        lemma_not_built_in(builtins, name);
    }
    if let Some(d) = last_named(nodes, kind, name) {
        let k = choose|k: int| 0 <= k < nodes.len() && #[trigger] nodes[k] == d;
        assert(is_def_of(nodes[k], kind, name));
    }
}

proof fn lemma_not_built_in(builtins: Seq<Builtin>, name: Seq<char>)
    requires
        builtin_index(builtins, name) >= builtins.len(),
    ensures
        forall|k: int| 0 <= k < builtins.len() ==> (#[trigger] builtins[k]).node.name@ != name,
    decreases builtins.len(),
{
    if builtins.len() > 0 {
        crate::air::lemma_builtin_index(builtins.drop_first(), name);
        lemma_not_built_in(builtins.drop_first(), name);
        assert forall|k: int| 0 <= k < builtins.len() implies (#[trigger] builtins[k]).node.name@
            != name by {
            if k > 0 {
                assert(builtins.drop_first()[k - 1] == builtins[k]);
            }
        }
    }
}

/// The canonical form of a patch settles its references to schemas, modules, effects, capabilities
/// and policies, each list among the definitions of its own kind, and changes nothing else.
pub proof fn lemma_canonical_form_settles_each_list(p: PatchView, builtins: Builtins)
    ensures
        ({
            let c = normalized(p, builtins);
            let m = p.manifest;
            &&& c.nodes == p.nodes
            &&& c.manifest.schemas == settled_refs(
                m.schemas,
                builtins.schemas@,
                p.nodes,
                Some(NodeKind::Schema),
            )
            &&& c.manifest.modules == settled_refs(
                m.modules,
                builtins.modules@,
                p.nodes,
                Some(NodeKind::Module),
            )
            &&& c.manifest.effects == settled_refs(
                m.effects,
                builtins.effects@,
                p.nodes,
                Some(NodeKind::Effect),
            )
            &&& c.manifest.caps == settled_refs(
                m.caps,
                builtins.caps@,
                p.nodes,
                Some(NodeKind::Cap),
            )
            &&& c.manifest.policies == settled_refs(
                m.policies,
                Seq::empty(),
                p.nodes,
                Some(NodeKind::Policy),
            )
            &&& c.manifest.ops == m.ops && c.manifest.secrets == m.secrets && c.manifest.workflows
                == m.workflows && c.manifest.routing == m.routing && c.manifest.air_version
                == m.air_version
        }),
        ({
            let w = rewritten(p.manifest, p.nodes);
            let m = p.manifest;
            &&& w.schemas == settled_refs(m.schemas, Seq::empty(), p.nodes, None)
            &&& w.modules == settled_refs(m.modules, Seq::empty(), p.nodes, None)
            &&& w.ops == settled_refs(m.ops, Seq::empty(), p.nodes, None)
            &&& w.secrets == settled_refs(m.secrets, Seq::empty(), p.nodes, None)
            &&& w.effects == m.effects && w.caps == m.caps && w.policies == m.policies
                && w.workflows == m.workflows && w.routing == m.routing && w.air_version
                == m.air_version
        }),
{
}

} // verus!
