//! What the changes of a patch document make of a manifest, list by list.
use vstd::prelude::*;

use crate::air::{is_sys, lemma_ref_index, ref_index, ref_removed, ref_set, ManifestView, NodeKind,
    NodeTree, RefView};
use crate::cbor::cbor_printed;
use crate::hash::{hash_text, hex_bytes, is_hash_text, sha256};

use super::{list_for, op_applied, ops_applied, refs_added, refs_at, refs_dropped,
    subscriptions_tree, with_placeholder, with_refs, ManifestRef, ManifestRefRemove, PatchOp};

verus! {

/// The references of a manifest to definitions of a kind.
pub open spec fn list_of(m: ManifestView, kind: Seq<char>) -> Seq<RefView> {
    if kind == "defschema"@ {
        m.schemas
    } else if kind == "defmodule"@ {
        m.modules
    } else if kind == "defop"@ {
        m.ops
    } else if kind == "defsecret"@ {
        m.secrets
    } else {
        Seq::empty()
    }
}

/// Whether a manifest has a list for a kind.
pub open spec fn is_listed(kind: Seq<char>) -> bool {
    kind == "defschema"@ || kind == "defmodule"@ || kind == "defop"@ || kind == "defsecret"@
}

/// Whether no two references have one name.
pub open spec fn names_once(refs: Seq<RefView>) -> bool {
    forall|i: int, j: int|
        0 <= i < j < refs.len() ==> (#[trigger] refs[i]).0 != (#[trigger] refs[j]).0
}

/// Whether in each list that a patch can change no two references have one name.
pub open spec fn all_once(m: ManifestView) -> bool {
    names_once(m.schemas) && names_once(m.modules) && names_once(m.ops) && names_once(m.secrets)
}

/// Whether a name is kept for definitions that are built in.
pub open spec fn is_reserved(name: Seq<char>) -> bool {
    name.len() >= 4 && name.take(4) == "sys/"@
}

/// Whether manifests are the same but for the list of one kind.
pub open spec fn same_but(m: ManifestView, after: ManifestView, kind: Seq<char>) -> bool {
    &&& kind != "defschema"@ ==> after.schemas == m.schemas
    &&& kind != "defmodule"@ ==> after.modules == m.modules
    &&& kind != "defop"@ ==> after.ops == m.ops
    &&& kind != "defsecret"@ ==> after.secrets == m.secrets
    &&& after.air_version == m.air_version
    &&& after.workflows == m.workflows
    &&& after.effects == m.effects
    &&& after.caps == m.caps
    &&& after.policies == m.policies
    &&& after.routing == m.routing
}

proof fn lemma_kinds_differ()
    ensures
        "defschema"@ != "defmodule"@,
        "defschema"@ != "defop"@,
        "defschema"@ != "defsecret"@,
        "defmodule"@ != "defop"@,
        "defmodule"@ != "defsecret"@,
        "defop"@ != "defsecret"@,
        "sys/"@.len() == 4,
{
    reveal_strlit("defschema");
    reveal_strlit("defmodule");
    reveal_strlit("defop");
    reveal_strlit("defsecret");
    reveal_strlit("sys/");
    assert("defschema"@[3] == 's' && "defmodule"@[3] == 'm' && "defop"@[3] == 'o');
    assert("defschema"@[4] == 'c' && "defsecret"@[4] == 'e');
    assert("defsecret"@[3] == 's');
}

proof fn lemma_kept_all(refs: Seq<RefView>, name: Seq<char>)
    requires
        forall|i: int| 0 <= i < refs.len() ==> (#[trigger] refs[i]).0 != name,
    ensures
        refs.filter(|r: RefView| r.0 != name) == refs,
    decreases refs.len(),
{
    reveal(Seq::filter);
    if refs.len() > 0 {
        lemma_kept_all(refs.drop_last(), name);
        assert(refs.drop_last().push(refs.last()) =~= refs);
    }
}

proof fn lemma_left_out(refs: Seq<RefView>, name: Seq<char>, k: int)
    requires
        names_once(refs),
        0 <= k < refs.len(),
        refs[k].0 == name,
    ensures
        refs.filter(|r: RefView| r.0 != name) == refs.remove(k),
    decreases refs.len(),
{
    reveal(Seq::filter);
    let front = refs.drop_last();
    if k == refs.len() - 1 {
        lemma_kept_all(front, name);
        assert(refs.remove(k) =~= front);
    } else {
        assert(refs.last().0 != name);
        lemma_left_out(front, name, k);
        assert(refs.remove(k) =~= front.remove(k).push(refs.last()));
    }
}

proof fn lemma_ref_left_out(refs: Seq<RefView>, name: Seq<char>)
    requires
        names_once(refs),
    ensures
        ref_removed(refs, name) == refs.filter(|r: RefView| r.0 != name),
{
    lemma_ref_index(refs, name);
    if ref_index(refs, name) < refs.len() {
        lemma_left_out(refs, name, ref_index(refs, name));
    } else {
        lemma_kept_all(refs, name);
    }
}

/// A definition is removed where it may be touched and the reference to it, if there is one, has
/// the digest that is expected. Its reference is then gone, the others of its list are left in
/// their order, and so is the rest of the manifest. No definition is added.
pub proof fn lemma_removed_definition_is_gone(m: ManifestView, nodes: Seq<NodeTree>, op: PatchOp)
    requires
        op is RemoveDef,
        all_once(m),
    ensures
        ({
            let kind = op->remove_def.kind@;
            let name = op->remove_def.name@;
            let refs = list_of(m, kind);
            &&& op_applied(m, nodes, op) is Ok <==> {
                &&& is_listed(kind)
                &&& !is_reserved(name)
                &&& forall|i: int|
                    0 <= i < refs.len() && (#[trigger] refs[i]).0 == name ==> refs[i].1
                        == op->remove_def.pre_hash@
            }
            &&& op_applied(m, nodes, op) matches Ok((after, ns)) ==> {
                &&& list_of(after, kind) == refs.filter(|r: RefView| r.0 != name)
                &&& forall|i: int|
                    0 <= i < list_of(after, kind).len() ==> (#[trigger] list_of(after, kind)[i]).0
                        != name
                &&& same_but(m, after, kind)
                &&& ns == nodes
            }
        }),
{
    lemma_kinds_differ();
    let kind = op->remove_def.kind@;
    let name = op->remove_def.name@;
    let refs = list_of(m, kind);
    lemma_ref_index(refs, name);
    lemma_ref_left_out(refs, name);
    let left = refs.filter(|r: RefView| r.0 != name);
    assert forall|i: int| 0 <= i < left.len() implies (#[trigger] left[i]).0 != name by {
        refs.lemma_filter_pred(|r: RefView| r.0 != name, i);
    }
    assert forall|i: int| 0 <= i < refs.len() && (#[trigger] refs[i]).0 == name implies i
        == ref_index(refs, name) by {}
}

/// Whether a list is another with a reference for `name` at the end whose digest is zeros, or the
/// same list where it has one already.
pub open spec fn has_place(refs: Seq<RefView>, after: Seq<RefView>, name: Seq<char>) -> bool {
    if exists|i: int| 0 <= i < refs.len() && (#[trigger] refs[i]).0 == name {
        after == refs
    } else {
        after == refs.push((name, hash_text(Seq::new(32, |i: int| 0u8))))
    }
}

proof fn lemma_has_place(refs: Seq<RefView>, name: Seq<char>)
    ensures
        has_place(refs, with_placeholder(refs, name), name),
{
    lemma_ref_index(refs, name);
    if ref_index(refs, name) < refs.len() {
        assert(refs[ref_index(refs, name)].0 == name);
    }
}

/// A definition is added where it is of the kind that is said, has a list and may be touched. The
/// manifest then has a reference to it, and it is the last of the new definitions.
pub proof fn lemma_added_definition_is_listed(m: ManifestView, nodes: Seq<NodeTree>, op: PatchOp)
    requires
        op is AddDef,
        op->add_def.node@.kind != NodeKind::Manifest,
    ensures
        ({
            let kind = op->add_def.kind@;
            let n = op->add_def.node@;
            &&& op_applied(m, nodes, op) is Ok <==> kind == n.kind.name() && is_listed(kind)
                && !is_reserved(n.name)
            &&& op_applied(m, nodes, op) matches Ok((after, ns)) ==> {
                &&& has_place(list_of(m, kind), list_of(after, kind), n.name)
                &&& same_but(m, after, kind)
                &&& ns == nodes.push(n)
            }
        }),
{
    lemma_kinds_differ();
    lemma_has_place(list_of(m, op->add_def.kind@), op->add_def.node@.name);
}

/// A definition is replaced where the new one is of the kind that is said, neither name is
/// reserved, and the reference to the old one, if there is one, has the digest that is expected.
/// The reference keeps its place, and the new definition is the last of the new ones.
pub proof fn lemma_replaced_definition_is_listed(
    m: ManifestView,
    nodes: Seq<NodeTree>,
    op: PatchOp,
)
    requires
        op is ReplaceDef,
        all_once(m),
    ensures
        ({
            let kind = op->replace_def.kind@;
            let name = op->replace_def.name@;
            let n = op->replace_def.new_node@;
            let refs = list_of(m, kind);
            &&& op_applied(m, nodes, op) is Ok <==> {
                &&& kind == n.kind.name()
                &&& is_listed(kind)
                &&& !is_reserved(name)
                &&& n.kind == NodeKind::Manifest || !is_reserved(n.name)
                &&& forall|i: int|
                    0 <= i < refs.len() && (#[trigger] refs[i]).0 == name ==> refs[i].1
                        == op->replace_def.pre_hash@
            }
            &&& op_applied(m, nodes, op) matches Ok((after, ns)) ==> {
                &&& has_place(refs, list_of(after, kind), name)
                &&& same_but(m, after, kind)
                &&& ns == nodes.push(n)
            }
        }),
{
    lemma_kinds_differ();
    let refs = list_of(m, op->replace_def.kind@);
    let name = op->replace_def.name@;
    lemma_ref_index(refs, name);
    lemma_has_place(refs, name);
    assert forall|i: int| 0 <= i < refs.len() && (#[trigger] refs[i]).0 == name implies i
        == ref_index(refs, name) by {}
}

/// New subscriptions take the place of the old ones where the expected digest is that of the old
/// ones, and nothing else changes.
pub proof fn lemma_routing_is_replaced(m: ManifestView, nodes: Seq<NodeTree>, op: PatchOp)
    requires
        op is SetRoutingSubscriptions,
    ensures
        ({
            let set = op->set_routing_subscriptions;
            &&& op_applied(m, nodes, op) is Ok <==> is_hash_text(set.pre_hash@) && hex_bytes(
                set.pre_hash@.skip(7),
            ) == sha256(cbor_printed(subscriptions_tree(m.routing))->Ok_0)
            &&& op_applied(m, nodes, op) matches Ok((after, ns)) ==> {
                &&& after.routing matches Some(r) && r.len() == set.subscriptions@.len()
                    && forall|i: int|
                    0 <= i < r.len() ==> {
                        let x = set.subscriptions@[i];
                        &&& (#[trigger] r[i]).0 == x.event@
                        &&& r[i].1 == x.module@
                        &&& x.key_field is None <==> r[i].2 is None
                        &&& x.key_field matches Some(k) ==> r[i].2 == Some(k@)
                    }
                &&& after == ManifestView { routing: after.routing, ..m }
                &&& ns == nodes
            }
        }),
{
}

/// Whether a list has the reference.
pub open spec fn points(refs: Seq<RefView>, name: Seq<char>, hash: Seq<char>) -> bool {
    exists|i: int| 0 <= i < refs.len() && #[trigger] refs[i] == (name, hash)
}

/// Whether a list has a reference for `name`.
pub open spec fn knows(refs: Seq<RefView>, name: Seq<char>) -> bool {
    exists|i: int| 0 <= i < refs.len() && (#[trigger] refs[i]).0 == name
}

proof fn lemma_set_points(refs: Seq<RefView>, name: Seq<char>, hash: Seq<char>)
    requires
        names_once(refs),
    ensures
        names_once(ref_set(refs, name, hash)),
        points(ref_set(refs, name, hash), name, hash),
        forall|n: Seq<char>, h: Seq<char>|
            n != name ==> #[trigger] points(ref_set(refs, name, hash), n, h) == points(refs, n, h),
        forall|h: Seq<char>| #[trigger]
            points(ref_set(refs, name, hash), name, h) ==> h == hash,
        forall|n: Seq<char>|
            n != name ==> #[trigger] knows(ref_set(refs, name, hash), n) == knows(refs, n),
{
    lemma_ref_index(refs, name);
    let k = ref_index(refs, name);
    let after = ref_set(refs, name, hash);
    if k < refs.len() {
        assert(after[k] == (name, hash));
    } else {
        assert(after[refs.len() as int] == (name, hash));
    }
    assert forall|n: Seq<char>, h: Seq<char>| n != name implies #[trigger] points(after, n, h)
        == points(refs, n, h) by {
        if points(after, n, h) {
            let i = choose|i: int| 0 <= i < after.len() && #[trigger] after[i] == (n, h);
            assert(refs[i] == (n, h));
        }
        if points(refs, n, h) {
            let i = choose|i: int| 0 <= i < refs.len() && #[trigger] refs[i] == (n, h);
            assert(after[i] == (n, h));
        }
    }
    assert forall|n: Seq<char>| n != name implies #[trigger] knows(after, n) == knows(
        refs,
        n,
    ) by {
        if knows(after, n) {
            let i = choose|i: int| 0 <= i < after.len() && (#[trigger] after[i]).0 == n;
            assert(refs[i].0 == n);
        }
        if knows(refs, n) {
            let i = choose|i: int| 0 <= i < refs.len() && (#[trigger] refs[i]).0 == n;
            assert(after[i].0 == n);
        }
    }
    assert forall|i: int, j: int| 0 <= i < j < after.len() implies (#[trigger] after[i]).0 != (
    #[trigger] after[j]).0 by {
        if j < refs.len() {
            assert(refs[i].0 == after[i].0 && refs[j].0 == after[j].0);
        } else {
            assert(refs[i].0 == after[i].0);
        }
    }
}

proof fn lemma_drop_points(refs: Seq<RefView>, name: Seq<char>)
    requires
        names_once(refs),
    ensures
        names_once(ref_removed(refs, name)),
        !knows(ref_removed(refs, name), name),
        forall|n: Seq<char>, h: Seq<char>|
            n != name ==> #[trigger] points(ref_removed(refs, name), n, h) == points(refs, n, h),
        forall|n: Seq<char>|
            n != name ==> #[trigger] knows(ref_removed(refs, name), n) == knows(refs, n),
{
    lemma_ref_index(refs, name);
    let k = ref_index(refs, name);
    let after = ref_removed(refs, name);
    if k < refs.len() {
        assert forall|i: int| 0 <= i < after.len() implies #[trigger] after[i] == refs[if i < k {
            i
        } else {
            i + 1
        }] by {}
        assert forall|n: Seq<char>, h: Seq<char>| n != name implies #[trigger] points(after, n, h)
            == points(refs, n, h) by {
            if points(after, n, h) {
                let i = choose|i: int| 0 <= i < after.len() && #[trigger] after[i] == (n, h);
                assert(refs[if i < k {
                    i
                } else {
                    i + 1
                }] == (n, h));
            }
            if points(refs, n, h) {
                let i = choose|i: int| 0 <= i < refs.len() && #[trigger] refs[i] == (n, h);
                assert(after[if i < k {
                    i
                } else {
                    i - 1
                }] == (n, h));
            }
        }
        assert forall|n: Seq<char>| n != name implies #[trigger] knows(after, n) == knows(
            refs,
            n,
        ) by {
            if knows(after, n) {
                let i = choose|i: int| 0 <= i < after.len() && (#[trigger] after[i]).0 == n;
                assert(refs[if i < k {
                    i
                } else {
                    i + 1
                }].0 == n);
            }
            if knows(refs, n) {
                let i = choose|i: int| 0 <= i < refs.len() && (#[trigger] refs[i]).0 == n;
                assert(after[if i < k {
                    i
                } else {
                    i - 1
                }].0 == n);
            }
        }
    }
}

/// What one added reference does: its name points to its digest in its list, and nothing else
/// changes.
#[verifier::spinoff_prover]
proof fn lemma_one_added(m: ManifestView, a: ManifestRef)
    requires
        all_once(m),
        is_listed(a.kind@),
    ensures
        ({
            let list = list_for(a.kind@)->0;
            let after = with_refs(m, list, ref_set(refs_at(m, list), a.name@, a.hash@));
            &&& list_for(a.kind@) is Some
            &&& all_once(after)
            &&& after == ManifestView {
                schemas: after.schemas,
                modules: after.modules,
                ops: after.ops,
                secrets: after.secrets,
                ..m
            }
            &&& points(list_of(after, a.kind@), a.name@, a.hash@)
            &&& forall|kind: Seq<char>, name: Seq<char>, hash: Seq<char>|
                is_listed(kind) && !(kind == a.kind@ && name == a.name@) ==> #[trigger] points(
                    list_of(after, kind),
                    name,
                    hash,
                ) == points(list_of(m, kind), name, hash)
        }),
{
    lemma_kinds_differ();
    lemma_set_points(list_of(m, a.kind@), a.name@, a.hash@);
    let list = list_for(a.kind@)->0;
    let after = with_refs(m, list, ref_set(refs_at(m, list), a.name@, a.hash@));
    assert(list_of(after, a.kind@) == ref_set(list_of(m, a.kind@), a.name@, a.hash@));
    assert forall|kind: Seq<char>| is_listed(kind) && kind != a.kind@ implies list_of(after, kind)
        == list_of(m, kind) by {}
}

#[verifier::spinoff_prover]
proof fn lemma_added_frame(m: ManifestView, add: Seq<ManifestRef>, n: nat)
    requires
        n <= add.len(),
        all_once(m),
    ensures
        refs_added(m, add, n) is Ok <==> forall|i: int|
            0 <= i < n ==> is_listed((#[trigger] add[i]).kind@) && is_hash_text(add[i].hash@),
        refs_added(m, add, n) matches Ok(after) ==> {
            &&& all_once(after)
            &&& after == ManifestView {
                schemas: after.schemas,
                modules: after.modules,
                ops: after.ops,
                secrets: after.secrets,
                ..m
            }
        },
    decreases n,
{
    if n > 0 {
        lemma_kinds_differ();
        lemma_added_frame(m, add, (n - 1) as nat);
        if let Ok(mid) = refs_added(m, add, (n - 1) as nat) {
            if is_listed(add[n - 1].kind@) {
                lemma_one_added(mid, add[n - 1]);
            }
        }
    }
}

#[verifier::spinoff_prover]
proof fn lemma_added_elsewhere(
    m: ManifestView,
    add: Seq<ManifestRef>,
    n: nat,
    kind: Seq<char>,
    name: Seq<char>,
    hash: Seq<char>,
)
    requires
        n <= add.len(),
        all_once(m),
        refs_added(m, add, n) is Ok,
        is_listed(kind),
        forall|i: int| 0 <= i < n ==> !((#[trigger] add[i]).kind@ == kind && add[i].name@ == name),
    ensures
        points(list_of(refs_added(m, add, n)->Ok_0, kind), name, hash) == points(
            list_of(m, kind),
            name,
            hash,
        ),
    decreases n,
{
    if n > 0 {
        lemma_added_frame(m, add, n);
        lemma_added_frame(m, add, (n - 1) as nat);
        lemma_added_elsewhere(m, add, (n - 1) as nat, kind, name, hash);
        let a = add[n - 1];
        assert(is_listed(a.kind@));
        lemma_one_added(refs_added(m, add, (n - 1) as nat)->Ok_0, a);
    }
}

#[verifier::spinoff_prover]
proof fn lemma_added_last(m: ManifestView, add: Seq<ManifestRef>, n: nat, i: int)
    requires
        0 <= i < n <= add.len(),
        all_once(m),
        refs_added(m, add, n) is Ok,
        forall|j: int|
            i < j < n ==> !((#[trigger] add[j]).kind@ == add[i].kind@ && add[j].name@
                == add[i].name@),
    ensures
        points(list_of(refs_added(m, add, n)->Ok_0, add[i].kind@), add[i].name@, add[i].hash@),
    decreases n,
{
    lemma_added_frame(m, add, n);
    lemma_added_frame(m, add, (n - 1) as nat);
    let a = add[n - 1];
    assert(is_listed(a.kind@));
    assert(is_listed(add[i].kind@));
    lemma_one_added(refs_added(m, add, (n - 1) as nat)->Ok_0, a);
    if i < n - 1 {
        lemma_added_last(m, add, (n - 1) as nat, i);
    }
}

/// What added references do: the last one for a name counts, and what none of them names stands.
#[verifier::spinoff_prover]
proof fn lemma_added(m: ManifestView, add: Seq<ManifestRef>, n: nat)
    requires
        n <= add.len(),
        all_once(m),
    ensures
        refs_added(m, add, n) is Ok <==> forall|i: int|
            0 <= i < n ==> is_listed((#[trigger] add[i]).kind@) && is_hash_text(add[i].hash@),
        refs_added(m, add, n) matches Ok(after) ==> {
            &&& all_once(after)
            &&& after == ManifestView {
                schemas: after.schemas,
                modules: after.modules,
                ops: after.ops,
                secrets: after.secrets,
                ..m
            }
            &&& forall|i: int|
                0 <= i < n && (forall|j: int|
                    i < j < n ==> !((#[trigger] add[j]).kind@ == add[i].kind@ && add[j].name@
                        == add[i].name@)) ==> points(
                    list_of(after, (#[trigger] add[i]).kind@),
                    add[i].name@,
                    add[i].hash@,
                )
            &&& forall|kind: Seq<char>, name: Seq<char>, hash: Seq<char>|
                is_listed(kind) && (forall|i: int|
                    0 <= i < n ==> !((#[trigger] add[i]).kind@ == kind && add[i].name@ == name))
                    ==> #[trigger] points(list_of(after, kind), name, hash) == points(
                    list_of(m, kind),
                    name,
                    hash,
                )
        },
{
    lemma_added_frame(m, add, n);
    if let Ok(after) = refs_added(m, add, n) {
        assert forall|i: int|
            0 <= i < n && (forall|j: int|
                i < j < n ==> !((#[trigger] add[j]).kind@ == add[i].kind@ && add[j].name@
                    == add[i].name@)) implies points(
            list_of(after, (#[trigger] add[i]).kind@),
            add[i].name@,
            add[i].hash@,
        ) by {
            lemma_added_last(m, add, n, i);
        }
        assert forall|kind: Seq<char>, name: Seq<char>, hash: Seq<char>|
            is_listed(kind) && (forall|i: int|
                0 <= i < n ==> !((#[trigger] add[i]).kind@ == kind && add[i].name@
                    == name)) implies #[trigger] points(list_of(after, kind), name, hash) == points(
            list_of(m, kind),
            name,
            hash,
        ) by {
            lemma_added_elsewhere(m, add, n, kind, name, hash);
        }
    }
}

/// What removed references do: they are gone, and what none of them names stands.
proof fn lemma_dropped(m: ManifestView, remove: Seq<ManifestRefRemove>, n: nat)
    requires
        n <= remove.len(),
        all_once(m),
    ensures
        refs_dropped(m, remove, n) is Ok <==> forall|i: int|
            0 <= i < n ==> is_listed((#[trigger] remove[i]).kind@),
        refs_dropped(m, remove, n) matches Ok(after) ==> {
            &&& all_once(after)
            &&& after == ManifestView {
                schemas: after.schemas,
                modules: after.modules,
                ops: after.ops,
                secrets: after.secrets,
                ..m
            }
            &&& forall|i: int|
                0 <= i < n ==> !knows(
                    list_of(after, (#[trigger] remove[i]).kind@),
                    remove[i].name@,
                )
            &&& forall|kind: Seq<char>, name: Seq<char>|
                is_listed(kind) && !knows(list_of(m, kind), name) ==> !#[trigger] knows(
                    list_of(after, kind),
                    name,
                )
            &&& forall|kind: Seq<char>, name: Seq<char>, hash: Seq<char>|
                is_listed(kind) && (forall|i: int|
                    0 <= i < n ==> !((#[trigger] remove[i]).kind@ == kind && remove[i].name@
                        == name)) ==> #[trigger] points(list_of(after, kind), name, hash) == points(
                    list_of(m, kind),
                    name,
                    hash,
                )
        },
    decreases n,
{
    if n > 0 {
        lemma_kinds_differ();
        lemma_dropped(m, remove, (n - 1) as nat);
        if let Ok(mid) = refs_dropped(m, remove, (n - 1) as nat) {
            let a = remove[n - 1];
            lemma_drop_points(list_of(mid, a.kind@), a.name@);
            if let Ok(after) = refs_dropped(m, remove, n) {
                assert(list_of(after, a.kind@) == ref_removed(list_of(mid, a.kind@), a.name@));
                assert forall|kind: Seq<char>| is_listed(kind) && kind != a.kind@ implies list_of(
                    after,
                    kind,
                ) == list_of(mid, kind) by {}
                assert forall|i: int| 0 <= i < n implies !knows(
                    list_of(after, (#[trigger] remove[i]).kind@),
                    remove[i].name@,
                ) by {
                    if i < n - 1 {
                        assert(!knows(list_of(mid, remove[i].kind@), remove[i].name@));
                        assert(is_listed(remove[i].kind@));
                    }
                }
                assert forall|kind: Seq<char>, name: Seq<char>|
                    is_listed(kind) && !knows(list_of(m, kind), name) implies !#[trigger] knows(
                    list_of(after, kind),
                    name,
                ) by {
                    assert(!knows(list_of(mid, kind), name));
                }
                assert forall|kind: Seq<char>, name: Seq<char>, hash: Seq<char>|
                    is_listed(kind) && (forall|i: int|
                        0 <= i < n ==> !((#[trigger] remove[i]).kind@ == kind && remove[i].name@
                            == name)) implies #[trigger] points(list_of(after, kind), name, hash)
                    == points(list_of(m, kind), name, hash) by {
                    assert(!(remove[n - 1].kind@ == kind && remove[n - 1].name@ == name));
                    assert(points(list_of(mid, kind), name, hash) == points(
                        list_of(m, kind),
                        name,
                        hash,
                    ));
                }
            }
        }
    }
}

proof fn lemma_first_sys(add: Seq<ManifestRef>, remove: Seq<ManifestRefRemove>, n: nat, k: nat)
    requires
        n <= add.len(),
        k <= remove.len(),
    ensures
        super::first_sys_add(add, n) is None <==> forall|i: int|
            0 <= i < n ==> !is_reserved((#[trigger] add[i]).name@),
        super::first_sys_remove(remove, k) is None <==> forall|i: int|
            0 <= i < k ==> !is_reserved((#[trigger] remove[i]).name@),
    decreases n, k,
{
    lemma_kinds_differ();
    if n > 0 {
        lemma_first_sys(add, remove, (n - 1) as nat, k);
        assert(is_sys(add[n - 1].name@) == is_reserved(add[n - 1].name@));
    } else if k > 0 {
        lemma_first_sys(add, remove, n, (k - 1) as nat);
        assert(is_sys(remove[k - 1].name@) == is_reserved(remove[k - 1].name@));
    }
}

/// References are set first and removed then. A list of them is taken where each names a kind that
/// has a list, none names what is built in, and each digest is one. Afterwards what is to be
/// removed is gone; of what is to be added the last reference for a name stands, unless it is
/// removed; and what is not spoken of is as it was.
pub proof fn lemma_references_are_set(m: ManifestView, nodes: Seq<NodeTree>, op: PatchOp)
    requires
        op is SetManifestRefs,
        all_once(m),
    ensures
        ({
            let add = op->set_manifest_refs.add@;
            let remove = op->set_manifest_refs.remove@;
            &&& op_applied(m, nodes, op) is Ok <==> {
                &&& forall|i: int|
                    0 <= i < add.len() ==> !is_reserved((#[trigger] add[i]).name@) && is_listed(
                        add[i].kind@,
                    ) && is_hash_text(add[i].hash@)
                &&& forall|i: int|
                    0 <= i < remove.len() ==> !is_reserved((#[trigger] remove[i]).name@)
                        && is_listed(remove[i].kind@)
            }
            &&& op_applied(m, nodes, op) matches Ok((after, ns)) ==> {
                &&& ns == nodes
                &&& after == ManifestView {
                    schemas: after.schemas,
                    modules: after.modules,
                    ops: after.ops,
                    secrets: after.secrets,
                    ..m
                }
                &&& forall|i: int|
                    0 <= i < remove.len() ==> !knows(
                        list_of(after, (#[trigger] remove[i]).kind@),
                        remove[i].name@,
                    )
                &&& forall|i: int|
                    0 <= i < add.len() && (forall|j: int|
                        i < j < add.len() ==> !((#[trigger] add[j]).kind@ == add[i].kind@
                            && add[j].name@ == add[i].name@)) && (forall|j: int|
                        0 <= j < remove.len() ==> !((#[trigger] remove[j]).kind@ == add[i].kind@
                            && remove[j].name@ == add[i].name@)) ==> points(
                        list_of(after, (#[trigger] add[i]).kind@),
                        add[i].name@,
                        add[i].hash@,
                    )
                &&& forall|kind: Seq<char>, name: Seq<char>, hash: Seq<char>|
                    is_listed(kind) && (forall|i: int|
                        0 <= i < add.len() ==> !((#[trigger] add[i]).kind@ == kind && add[i].name@
                            == name)) && (forall|i: int|
                        0 <= i < remove.len() ==> !((#[trigger] remove[i]).kind@ == kind
                            && remove[i].name@ == name)) ==> #[trigger] points(
                        list_of(after, kind),
                        name,
                        hash,
                    ) == points(list_of(m, kind), name, hash)
            }
        }),
{
    let add = op->set_manifest_refs.add@;
    let remove = op->set_manifest_refs.remove@;
    lemma_first_sys(add, remove, add.len(), remove.len());
    lemma_added(m, add, add.len());
    if let Ok(mid) = refs_added(m, add, add.len()) {
        lemma_dropped(mid, remove, remove.len());
        if let Ok((after, ns)) = op_applied(m, nodes, op) {
            assert(refs_dropped(mid, remove, remove.len()) == Ok::<_, Seq<char>>(after));
            assert forall|i: int|
                0 <= i < add.len() && (forall|j: int|
                    i < j < add.len() ==> !((#[trigger] add[j]).kind@ == add[i].kind@
                        && add[j].name@ == add[i].name@)) && (forall|j: int|
                    0 <= j < remove.len() ==> !((#[trigger] remove[j]).kind@ == add[i].kind@
                        && remove[j].name@ == add[i].name@)) implies points(
                list_of(after, (#[trigger] add[i]).kind@),
                add[i].name@,
                add[i].hash@,
            ) by {
                assert(is_listed(add[i].kind@));
                assert(points(list_of(mid, add[i].kind@), add[i].name@, add[i].hash@));
            }
            assert forall|kind: Seq<char>, name: Seq<char>, hash: Seq<char>|
                is_listed(kind) && (forall|i: int|
                    0 <= i < add.len() ==> !((#[trigger] add[i]).kind@ == kind && add[i].name@
                        == name)) && (forall|i: int|
                    0 <= i < remove.len() ==> !((#[trigger] remove[i]).kind@ == kind
                        && remove[i].name@ == name)) implies #[trigger] points(
                list_of(after, kind),
                name,
                hash,
            ) == points(list_of(m, kind), name, hash) by {
                assert(points(list_of(mid, kind), name, hash) == points(
                    list_of(m, kind),
                    name,
                    hash,
                ));
            }
        }
    }
}

/// The definition that a change brings, if it brings one.
pub open spec fn brought(op: PatchOp) -> Option<NodeTree> {
    match op {
        PatchOp::AddDef { add_def } => Some(add_def.node@),
        PatchOp::ReplaceDef { replace_def } => Some(replace_def.new_node@),
        _ => None,
    }
}

/// The changes of a document are made one after another: each starts from what those before it have
/// made, the first fault is the fault of the document, and the definitions are those that the
/// changes bring, in their order.
pub proof fn lemma_changes_follow_each_other(m: ManifestView, ops: Seq<PatchOp>, n: nat)
    requires
        0 < n <= ops.len(),
    ensures
        match ops_applied(m, ops, (n - 1) as nat) {
            Err(e) => ops_applied(m, ops, n) == Err::<(ManifestView, Seq<NodeTree>), Seq<char>>(e),
            Ok((mid, nodes)) => {
                &&& ops_applied(m, ops, n) is Ok == op_applied(mid, nodes, ops[n - 1]) is Ok
                &&& ops_applied(m, ops, n) matches Ok((after, ns)) ==> {
                    &&& op_applied(mid, nodes, ops[n - 1]) == Ok::<_, Seq<char>>((after, ns))
                    &&& ns == match brought(ops[n - 1]) {
                        Some(d) => nodes.push(d),
                        None => nodes,
                    }
                }
            },
        },
        ops_applied(m, ops, 0) == Ok::<_, Seq<char>>((m, Seq::<NodeTree>::empty())),
{
}

} // verus!
