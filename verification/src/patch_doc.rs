//! Patch documents: lists of changes to a manifest.
use vstd::prelude::*;

use crate::air::{find_ref, has_ref, is_sys, is_sys_name, ref_index, ref_removed, ref_set,
    refs_view, routing_view, AirNode, Builtins, Manifest, ManifestView, NamedRef, NodeKind,
    NodeTree, RefView, RoutingEvent, RoutingView};
use crate::bytes::bytes_eq;
use crate::cbor::{cbor_printed, encode_cbor, lemma_array_tree, lemma_round_trips_writable, round_trips,
    safe_depth, trees, CborTree, CborValue};
use crate::cbor_map::{lemma_text_map_round_trips, text_map, Field, FieldMap};
use crate::error::{is_manifest_error, KernelError};
use crate::governance::{nodes_view, ManifestPatch, PatchView};
use crate::governance_utils::{canonicalize_patch, normalized, rewrite_manifest_refs, rewritten,
    schema_unread};
use crate::hash::{hash_fault, hash_text, hex_bytes, is_hash_text, sha256, ContentHash, HashRef};
use crate::store::{or_insert, write_fails, Store, StoreError};
use crate::text::{join2, join3, str_eq};

pub mod laws;

verus! {

/// A list of changes to the manifest with a given hash.
#[derive(Debug)]
pub struct PatchDocument {
    pub version: String,
    pub base_manifest_hash: String,
    pub patches: Vec<PatchOp>,
}

/// The version of patch documents, where none is given.
pub fn default_patch_version() -> (r: String)
    ensures
        r@ == "2"@,
{
    "2".to_owned()
}

#[derive(Debug)]
pub enum PatchOp {
    AddDef { add_def: AddDef },
    ReplaceDef { replace_def: ReplaceDef },
    RemoveDef { remove_def: RemoveDef },
    SetManifestRefs { set_manifest_refs: SetManifestRefs },
    SetRoutingSubscriptions { set_routing_subscriptions: SetRoutingSubscriptions },
}

#[derive(Debug)]
pub struct AddDef {
    pub kind: String,
    pub node: AirNode,
}

#[derive(Debug)]
pub struct ReplaceDef {
    pub kind: String,
    pub name: String,
    pub new_node: AirNode,
    pub pre_hash: String,
}

#[derive(Debug)]
pub struct RemoveDef {
    pub kind: String,
    pub name: String,
    pub pre_hash: String,
}

#[derive(Debug)]
pub struct SetManifestRefs {
    pub add: Vec<ManifestRef>,
    pub remove: Vec<ManifestRefRemove>,
}

#[derive(Debug)]
pub struct ManifestRef {
    pub kind: String,
    pub name: String,
    pub hash: String,
}

#[derive(Debug)]
pub struct ManifestRefRemove {
    pub kind: String,
    pub name: String,
}

/// New subscriptions in place of those with the hash `pre_hash`.
#[derive(Debug)]
pub struct SetRoutingSubscriptions {
    pub pre_hash: String,
    pub subscriptions: Vec<RoutingEvent>,
}

/// The lists of references that a patch can change.
#[derive(Clone, Copy, Debug, PartialEq, Eq, Structural)]
pub enum RefList {
    Schemas,
    Modules,
    Ops,
    Secrets,
}

/// The list for a kind of definition.
pub open spec fn list_for(kind: Seq<char>) -> Option<RefList> {
    if kind == "defschema"@ {
        Some(RefList::Schemas)
    } else if kind == "defmodule"@ {
        Some(RefList::Modules)
    } else if kind == "defop"@ {
        Some(RefList::Ops)
    } else if kind == "defsecret"@ {
        Some(RefList::Secrets)
    } else {
        None
    }
}

pub open spec fn refs_at(m: ManifestView, list: RefList) -> Seq<RefView> {
    match list {
        RefList::Schemas => m.schemas,
        RefList::Modules => m.modules,
        RefList::Ops => m.ops,
        RefList::Secrets => m.secrets,
    }
}

pub open spec fn with_refs(m: ManifestView, list: RefList, refs: Seq<RefView>) -> ManifestView {
    match list {
        RefList::Schemas => ManifestView { schemas: refs, ..m },
        RefList::Modules => ManifestView { modules: refs, ..m },
        RefList::Ops => ManifestView { ops: refs, ..m },
        RefList::Secrets => ManifestView { secrets: refs, ..m },
    }
}

/// The error of a kind without a list.
pub open spec fn no_list(kind: Seq<char>) -> Seq<char> {
    "unsupported manifest ref kind: "@ + kind
}

fn ref_list(kind: &str) -> (r: Result<RefList, KernelError>)
    ensures
        match (r, list_for(kind@)) {
            (Ok(a), Some(b)) => a == b,
            (Err(e), None) => is_manifest_error(e, no_list(kind@)),
            _ => false,
        },
{
    if str_eq(kind, "defschema") {
        Ok(RefList::Schemas)
    } else if str_eq(kind, "defmodule") {
        Ok(RefList::Modules)
    } else if str_eq(kind, "defop") {
        Ok(RefList::Ops)
    } else if str_eq(kind, "defsecret") {
        Ok(RefList::Secrets)
    } else {
        Err(KernelError::Manifest(join2("unsupported manifest ref kind: ", kind)))
    }
}

/// The text of the digest of zeros, which stands for a digest not yet known.
pub open spec fn zero_hash() -> Seq<char> {
    hash_text(Seq::new(32, |i: int| 0u8))
}

pub fn zero_hash_ref() -> (r: HashRef)
    ensures
        r@ == zero_hash(),
{
    let h = ContentHash::from_array([0u8; 32]);
    assert(h@ =~= Seq::new(32, |i: int| 0u8));
    HashRef::of_hash(&h)
}

fn set_ref(refs: &mut Vec<NamedRef>, name: &str, hash: HashRef)
    ensures
        refs_view(final(refs)@) == ref_set(refs_view(old(refs)@), name@, hash@),
{
    let ghost before = refs_view(refs@);
    let i: usize = find_ref(refs, name);
    if i < refs.len() {
        let old_name = refs[i].name.clone();
        refs.set(i, NamedRef { name: old_name, hash });
        assert(refs_view(refs@) =~= ref_set(before, name@, hash@));
    } else {
        refs.push(NamedRef { name: name.to_owned(), hash });
        assert(refs_view(refs@) =~= ref_set(before, name@, hash@));
    }
}

fn remove_ref(refs: &mut Vec<NamedRef>, name: &str)
    ensures
        refs_view(final(refs)@) == ref_removed(refs_view(old(refs)@), name@),
{
    let ghost before = refs_view(refs@);
    let i: usize = find_ref(refs, name);
    if i < refs.len() {
        refs.remove(i);
        assert(refs_view(refs@) =~= ref_removed(before, name@));
    }
}

/// The references with one for `name` whose digest is not yet known, unless there is one.
pub open spec fn with_placeholder(refs: Seq<RefView>, name: Seq<char>) -> Seq<RefView> {
    if has_ref(refs, name) {
        refs
    } else {
        refs.push((name, zero_hash()))
    }
}

fn add_placeholder(refs: &mut Vec<NamedRef>, name: &str)
    ensures
        refs_view(final(refs)@) == with_placeholder(refs_view(old(refs)@), name@),
{
    let ghost before = refs_view(refs@);
    if find_ref(refs, name) >= refs.len() {
        refs.push(NamedRef { name: name.to_owned(), hash: zero_hash_ref() });
        assert(refs_view(refs@) =~= with_placeholder(before, name@));
    }
}

/// A result over models of manifests.
pub open spec fn manifest_result(
    r: Result<(), KernelError>,
    before: ManifestView,
    after: ManifestView,
    want: Result<ManifestView, Seq<char>>,
) -> bool {
    match (r, want) {
        (Ok(_), Ok(m)) => after == m,
        (Err(e), Err(t)) => is_manifest_error(e, t),
        _ => false,
    }
}

/// Adds a reference for `name` whose digest is not yet known.
pub open spec fn placeholder_inserted(
    m: ManifestView,
    kind: Seq<char>,
    name: Seq<char>,
) -> Result<ManifestView, Seq<char>> {
    match list_for(kind) {
        None => Err(no_list(kind)),
        Some(list) => Ok(with_refs(m, list, with_placeholder(refs_at(m, list), name))),
    }
}

pub fn insert_placeholder_ref(manifest: &mut Manifest, kind: &str, name: &str) -> (r: Result<
    (),
    KernelError,
>)
    ensures
        manifest_result(
            r,
            old(manifest)@,
            final(manifest)@,
            placeholder_inserted(old(manifest)@, kind@, name@),
        ),
{
    match ref_list(kind) {
        Err(e) => {
            return Err(e);
        },
        Ok(RefList::Schemas) => add_placeholder(&mut manifest.schemas, name),
        Ok(RefList::Modules) => add_placeholder(&mut manifest.modules, name),
        Ok(RefList::Ops) => add_placeholder(&mut manifest.ops, name),
        Ok(RefList::Secrets) => add_placeholder(&mut manifest.secrets, name),
    }
    Ok(())
}

/// Checks the digest of the reference for `name`, and removes it, or makes sure that there is one.
pub open spec fn ref_updated(
    m: ManifestView,
    kind: Seq<char>,
    name: Seq<char>,
    pre_hash: Seq<char>,
    remove: bool,
) -> Result<ManifestView, Seq<char>> {
    match list_for(kind) {
        None => Err(no_list(kind)),
        Some(list) => {
            let refs = refs_at(m, list);
            if has_ref(refs, name) && refs[ref_index(refs, name)].1 != pre_hash {
                Err("pre_hash mismatch for "@ + name)
            } else if remove {
                Ok(with_refs(m, list, ref_removed(refs, name)))
            } else {
                Ok(with_refs(m, list, with_placeholder(refs, name)))
            }
        },
    }
}

/// Whether the reference for `name`, where there is one, has the digest `pre_hash`.
fn pre_hash_holds(refs: &Vec<NamedRef>, name: &str, pre_hash: &str) -> (r: bool)
    ensures
        r == !(has_ref(refs_view(refs@), name@) && refs_view(refs@)[ref_index(
            refs_view(refs@),
            name@,
        )].1 != pre_hash@),
{
    let i: usize = find_ref(refs, name);
    if i < refs.len() {
        assert(refs_view(refs@)[i as int].1 == refs@[i as int].hash@);
        str_eq(refs[i].hash.as_str(), pre_hash)
    } else {
        true
    }
}

fn update_list(refs: &mut Vec<NamedRef>, name: &str, remove: bool)
    ensures
        refs_view(final(refs)@) == if remove {
            ref_removed(refs_view(old(refs)@), name@)
        } else {
            with_placeholder(refs_view(old(refs)@), name@)
        },
{
    if remove {
        remove_ref(refs, name);
    } else {
        add_placeholder(refs, name);
    }
}

pub fn update_manifest_ref_hash(
    manifest: &mut Manifest,
    kind: &str,
    name: &str,
    pre_hash: &str,
    remove: bool,
) -> (r: Result<(), KernelError>)
    ensures
        manifest_result(
            r,
            old(manifest)@,
            final(manifest)@,
            ref_updated(old(manifest)@, kind@, name@, pre_hash@, remove),
        ),
        r is Err ==> final(manifest)@ == old(manifest)@,
{
    let list = match ref_list(kind) {
        Err(e) => {
            return Err(e);
        },
        Ok(l) => l,
    };
    let holds = match list {
        RefList::Schemas => pre_hash_holds(&manifest.schemas, name, pre_hash),
        RefList::Modules => pre_hash_holds(&manifest.modules, name, pre_hash),
        RefList::Ops => pre_hash_holds(&manifest.ops, name, pre_hash),
        RefList::Secrets => pre_hash_holds(&manifest.secrets, name, pre_hash),
    };
    if !holds {
        return Err(KernelError::Manifest(join2("pre_hash mismatch for ", name)));
    }
    match list {
        RefList::Schemas => update_list(&mut manifest.schemas, name, remove),
        RefList::Modules => update_list(&mut manifest.modules, name, remove),
        RefList::Ops => update_list(&mut manifest.ops, name, remove),
        RefList::Secrets => update_list(&mut manifest.secrets, name, remove),
    }
    Ok(())
}

/// The manifest with the first `n` references added; of several faults the first counts.
pub open spec fn refs_added(m: ManifestView, add: Seq<ManifestRef>, n: nat) -> Result<
    ManifestView,
    Seq<char>,
>
    decreases n,
{
    if n == 0 || n > add.len() {
        Ok(m)
    } else {
        let a = add[n - 1];
        match refs_added(m, add, (n - 1) as nat) {
            Err(e) => Err(e),
            Ok(before) => match list_for(a.kind@) {
                None => Err(no_list(a.kind@)),
                Some(list) => if !is_hash_text(a.hash@) {
                    Err(hash_fault(a.hash@))
                } else {
                    Ok(with_refs(before, list, ref_set(refs_at(before, list), a.name@, a.hash@)))
                },
            },
        }
    }
}

/// The manifest with the first `n` references removed.
pub open spec fn refs_dropped(m: ManifestView, remove: Seq<ManifestRefRemove>, n: nat) -> Result<
    ManifestView,
    Seq<char>,
>
    decreases n,
{
    if n == 0 || n > remove.len() {
        Ok(m)
    } else {
        let a = remove[n - 1];
        match refs_dropped(m, remove, (n - 1) as nat) {
            Err(e) => Err(e),
            Ok(before) => match list_for(a.kind@) {
                None => Err(no_list(a.kind@)),
                Some(list) => Ok(
                    with_refs(before, list, ref_removed(refs_at(before, list), a.name@)),
                ),
            },
        }
    }
}

proof fn lemma_added_fault(m: ManifestView, add: Seq<ManifestRef>, k: nat, n: nat)
    requires
        k <= n <= add.len(),
        refs_added(m, add, k) is Err,
    ensures
        refs_added(m, add, n) == refs_added(m, add, k),
    decreases n,
{
    if k < n {
        lemma_added_fault(m, add, k, (n - 1) as nat);
    }
}

proof fn lemma_dropped_fault(m: ManifestView, remove: Seq<ManifestRefRemove>, k: nat, n: nat)
    requires
        k <= n <= remove.len(),
        refs_dropped(m, remove, k) is Err,
    ensures
        refs_dropped(m, remove, n) == refs_dropped(m, remove, k),
    decreases n,
{
    if k < n {
        lemma_dropped_fault(m, remove, k, (n - 1) as nat);
    }
}

/// What a list of added and removed references makes of a manifest.
pub open spec fn manifest_refs_applied(m: ManifestView, refs: SetManifestRefs) -> Result<
    ManifestView,
    Seq<char>,
> {
    match refs_added(m, refs.add@, refs.add@.len()) {
        Err(e) => Err(e),
        Ok(mid) => refs_dropped(mid, refs.remove@, refs.remove@.len()),
    }
}

pub fn apply_manifest_refs(manifest: &mut Manifest, refs: &SetManifestRefs) -> (r: Result<
    (),
    KernelError,
>)
    ensures
        manifest_result(
            r,
            old(manifest)@,
            final(manifest)@,
            manifest_refs_applied(old(manifest)@, *refs),
        ),
{
    let ghost start = manifest@;
    let mut i: usize = 0;
    while i < refs.add.len()
        invariant
            i <= refs.add@.len(),
            start == old(manifest)@,
            refs_added(start, refs.add@, i as nat) == Ok::<_, Seq<char>>(manifest@),
        decreases refs.add@.len() - i,
    {
        let a = &refs.add[i];
        let list = match ref_list(a.kind.as_str()) {
            Ok(l) => l,
            Err(e) => {
                proof {
                    lemma_added_fault(start, refs.add@, (i + 1) as nat, refs.add@.len());
                }
                return Err(e);
            },
        };
        let hash = match HashRef::new(a.hash.clone()) {
            Ok(h) => h,
            Err(e) => {
                proof {
                    lemma_added_fault(start, refs.add@, (i + 1) as nat, refs.add@.len());
                }
                return Err(KernelError::Manifest(e.message()));
            },
        };
        match list {
            RefList::Schemas => set_ref(&mut manifest.schemas, a.name.as_str(), hash),
            RefList::Modules => set_ref(&mut manifest.modules, a.name.as_str(), hash),
            RefList::Ops => set_ref(&mut manifest.ops, a.name.as_str(), hash),
            RefList::Secrets => set_ref(&mut manifest.secrets, a.name.as_str(), hash),
        }
        i += 1;
    }
    let ghost mid = manifest@;
    let mut j: usize = 0;
    while j < refs.remove.len()
        invariant
            j <= refs.remove@.len(),
            start == old(manifest)@,
            refs_added(start, refs.add@, refs.add@.len()) == Ok::<_, Seq<char>>(mid),
            refs_dropped(mid, refs.remove@, j as nat) == Ok::<_, Seq<char>>(manifest@),
        decreases refs.remove@.len() - j,
    {
        let a = &refs.remove[j];
        match ref_list(a.kind.as_str()) {
            Err(e) => {
                proof {
                    lemma_dropped_fault(mid, refs.remove@, (j + 1) as nat, refs.remove@.len());
                }
                return Err(e);
            },
            Ok(RefList::Schemas) => remove_ref(&mut manifest.schemas, a.name.as_str()),
            Ok(RefList::Modules) => remove_ref(&mut manifest.modules, a.name.as_str()),
            Ok(RefList::Ops) => remove_ref(&mut manifest.ops, a.name.as_str()),
            Ok(RefList::Secrets) => remove_ref(&mut manifest.secrets, a.name.as_str()),
        }
        j += 1;
    }
    Ok(())
}

/// The error of touching a built-in definition.
pub open spec fn sys_fault(name: Seq<char>, action: Seq<char>) -> Seq<char> {
    "cannot "@ + action + " reserved sys/* def '"@ + name + "'"@
}

/// Refuses to touch a built-in definition.
pub fn reject_sys_name(name: &str, action: &str) -> (r: Result<(), KernelError>)
    ensures
        r is Ok <==> !is_sys(name@),
        r matches Err(e) ==> is_manifest_error(e, sys_fault(name@, action@)),
{
    if is_sys_name(name) {
        let head = join3("cannot ", action, " reserved sys/* def '");
        Err(KernelError::Manifest(join3(head.as_str(), name, "'")))
    } else {
        Ok(())
    }
}

/// The error of a definition that is not of the kind that a patch says it is.
pub open spec fn kind_fault(expected: Seq<char>, actual: Seq<char>) -> Seq<char> {
    "kind mismatch: patch declared "@ + expected + " but node is "@ + actual
}

/// Whether a definition is of the kind that a patch says it is.
pub fn enforce_kind(expected: &str, node: &AirNode) -> (r: Result<(), KernelError>)
    ensures
        r is Ok <==> expected@ == node.kind.name(),
        r matches Err(e) ==> is_manifest_error(e, kind_fault(expected@, node.kind.name())),
{
    let actual = node.kind.label();
    if str_eq(expected, actual) {
        Ok(())
    } else {
        let head = join3("kind mismatch: patch declared ", expected, " but node is ");
        Err(KernelError::Manifest(join2(head.as_str(), actual)))
    }
}

/// The name of a definition; a manifest has none.
pub open spec fn def_name(n: NodeTree) -> Option<Seq<char>> {
    if n.kind == NodeKind::Manifest {
        None
    } else {
        Some(n.name)
    }
}

pub fn node_name(node: &AirNode) -> (r: Option<&str>)
    ensures
        match (r, def_name(node@)) {
            (Some(a), Some(b)) => a@ == b,
            (None, None) => true,
            _ => false,
        },
{
    match node.kind {
        NodeKind::Manifest => None,
        _ => Some(node.name.as_str()),
    }
}

/// The first name among references that belongs to a built-in definition.
pub open spec fn first_sys_add(add: Seq<ManifestRef>, n: nat) -> Option<Seq<char>>
    decreases n,
{
    if n == 0 || n > add.len() {
        None
    } else {
        match first_sys_add(add, (n - 1) as nat) {
            Some(x) => Some(x),
            None => if is_sys(add[n - 1].name@) {
                Some(add[n - 1].name@)
            } else {
                None
            },
        }
    }
}

pub open spec fn first_sys_remove(remove: Seq<ManifestRefRemove>, n: nat) -> Option<Seq<char>>
    decreases n,
{
    if n == 0 || n > remove.len() {
        None
    } else {
        match first_sys_remove(remove, (n - 1) as nat) {
            Some(x) => Some(x),
            None => if is_sys(remove[n - 1].name@) {
                Some(remove[n - 1].name@)
            } else {
                None
            },
        }
    }
}

proof fn lemma_sys_add_stands(add: Seq<ManifestRef>, k: nat, n: nat)
    requires
        k <= n <= add.len(),
        first_sys_add(add, k) is Some,
    ensures
        first_sys_add(add, n) == first_sys_add(add, k),
    decreases n,
{
    if k < n {
        lemma_sys_add_stands(add, k, (n - 1) as nat);
    }
}

proof fn lemma_sys_remove_stands(remove: Seq<ManifestRefRemove>, k: nat, n: nat)
    requires
        k <= n <= remove.len(),
        first_sys_remove(remove, k) is Some,
    ensures
        first_sys_remove(remove, n) == first_sys_remove(remove, k),
    decreases n,
{
    if k < n {
        lemma_sys_remove_stands(remove, k, (n - 1) as nat);
    }
}

/// Refuses references to built-in definitions.
fn reject_sys_refs(refs: &SetManifestRefs) -> (r: Result<(), KernelError>)
    ensures
        match (
            first_sys_add(refs.add@, refs.add@.len()),
            first_sys_remove(refs.remove@, refs.remove@.len()),
        ) {
            (Some(x), _) => r is Err && is_manifest_error(
                r->Err_0,
                sys_fault(x, "add manifest ref for"@),
            ),
            (None, Some(x)) => r is Err && is_manifest_error(
                r->Err_0,
                sys_fault(x, "remove manifest ref for"@),
            ),
            (None, None) => r is Ok,
        },
{
    let mut i: usize = 0;
    while i < refs.add.len()
        invariant
            i <= refs.add@.len(),
            first_sys_add(refs.add@, i as nat) is None,
        decreases refs.add@.len() - i,
    {
        match reject_sys_name(refs.add[i].name.as_str(), "add manifest ref for") {
            Ok(_) => {},
            Err(e) => {
                proof {
                    lemma_sys_add_stands(refs.add@, (i + 1) as nat, refs.add@.len());
                }
                return Err(e);
            },
        }
        i += 1;
    }
    let mut j: usize = 0;
    while j < refs.remove.len()
        invariant
            j <= refs.remove@.len(),
            first_sys_add(refs.add@, refs.add@.len()) is None,
            first_sys_remove(refs.remove@, j as nat) is None,
        decreases refs.remove@.len() - j,
    {
        match reject_sys_name(refs.remove[j].name.as_str(), "remove manifest ref for") {
            Ok(_) => {},
            Err(e) => {
                proof {
                    lemma_sys_remove_stands(refs.remove@, (j + 1) as nat, refs.remove@.len());
                }
                return Err(e);
            },
        }
        j += 1;
    }
    Ok(())
}

/// The fields of a subscription; a key field that is not given is left out.
pub open spec fn subscription_fields(s: RoutingView) -> Seq<Field> {
    let head = seq![("event"@, CborTree::Text(s.0)), ("module"@, CborTree::Text(s.1))];
    match s.2 {
        Some(k) => head.push(("key_field"@, CborTree::Text(k))),
        None => head,
    }
}

pub open spec fn subscription_tree(s: RoutingView) -> CborTree {
    CborTree::Mapping(text_map(subscription_fields(s)))
}

/// The subscriptions of a manifest as a list of maps; a manifest without routing has none.
pub open spec fn subscriptions_tree(routing: Option<Seq<RoutingView>>) -> CborTree {
    CborTree::Array(
        match routing {
            Some(r) => Seq::new(r.len(), |i: int| subscription_tree(r[i])),
            None => Seq::empty(),
        },
    )
}

/// The digest of the subscriptions of a manifest: that of their canonical encoding.
pub open spec fn subscriptions_hash(routing: Option<Seq<RoutingView>>) -> Seq<u8> {
    sha256(cbor_printed(subscriptions_tree(routing))->Ok_0)
}

proof fn lemma_subscription_round_trips(s: RoutingView)
    ensures
        round_trips(subscription_tree(s), 99),
{
    let fields = subscription_fields(s);
    assert forall|k: int| 0 <= k < fields.len() implies round_trips(
        (#[trigger] fields[k]).1,
        98,
    ) by {
        assert(k == 0 || k == 1 || k == 2);
    }
    lemma_text_map_round_trips(fields, 98);
}

fn subscription_value(s: &RoutingEvent) -> (r: CborValue)
    ensures
        r@ == subscription_tree(s@),
{
    let mut f = FieldMap::new();
    f.put("event", CborValue::Text(s.event.clone()));
    f.put("module", CborValue::Text(s.module.clone()));
    if let Some(k) = &s.key_field {
        f.put("key_field", CborValue::Text(k.clone()));
    }
    assert(f.fields@ =~= subscription_fields(s@));
    f.finish()
}

/// The digest of the subscriptions of a manifest. They can always be written.
pub fn hash_subscriptions(routing: &Option<Vec<RoutingEvent>>) -> (r: ContentHash)
    ensures
        r@ == subscriptions_hash(routing_view(*routing)),
        cbor_printed(subscriptions_tree(routing_view(*routing))) is Ok,
{
    let ghost view = routing_view(*routing);
    let mut items: Vec<CborValue> = Vec::new();
    if let Some(list) = routing {
        let mut i: usize = 0;
        while i < list.len()
            invariant
                i == items@.len(),
                i <= list@.len(),
                *routing == Some(*list),
                view == routing_view(*routing),
                forall|k: int|
                    0 <= k < i ==> (#[trigger] items@[k])@ == subscription_tree(
                        view->Some_0[k],
                    ),
            decreases list@.len() - i,
        {
            items.push(subscription_value(&list[i]));
            i += 1;
        }
    }
    let value = CborValue::Array(items);
    proof {
        lemma_array_tree(value);
        assert(trees(items@) =~= subscriptions_tree(view)->Array_0);
        let parts = value@->Array_0;
        assert forall|i: int| 0 <= i < parts.len() implies round_trips(#[trigger] parts[i], 99) by {
            lemma_subscription_round_trips(view->Some_0[i]);
        }
        assert(round_trips(value@, safe_depth()));
        lemma_round_trips_writable(value@, safe_depth());
    }
    match encode_cbor(&value) {
        Ok(b) => ContentHash::of_bytes(b.as_slice()),
        Err(_) => {
            assert(false);
            ContentHash::from_array([0u8; 32])
        },
    }
}

/// What new subscriptions make of a manifest, if the present ones have the hash that the patch
/// says.
pub open spec fn routing_applied(
    m: ManifestView,
    op: SetRoutingSubscriptions,
) -> Result<ManifestView, Seq<char>> {
    if !is_hash_text(op.pre_hash@) {
        Err("invalid pre_hash for routing.subscriptions: "@ + hash_fault(op.pre_hash@))
    } else if hex_bytes(op.pre_hash@.skip(7)) != subscriptions_hash(m.routing) {
        Err("pre_hash mismatch for routing.subscriptions"@)
    } else {
        Ok(ManifestView { routing: routing_view(Some(op.subscriptions)), ..m })
    }
}

pub fn apply_routing_subscriptions(
    manifest: &mut Manifest,
    op: SetRoutingSubscriptions,
) -> (r: Result<(), KernelError>)
    ensures
        manifest_result(
            r,
            old(manifest)@,
            final(manifest)@,
            routing_applied(old(manifest)@, op),
        ),
{
    let current = hash_subscriptions(&manifest.routing);
    let found = match ContentHash::from_hex_str(op.pre_hash.as_str()) {
        Ok(h) => h,
        Err(e) => {
            return Err(
                KernelError::Manifest(
                    join2(
                        "invalid pre_hash for routing.subscriptions: ",
                        e.message().as_str(),
                    ),
                ),
            );
        },
    };
    if !bytes_eq(found.as_bytes(), current.as_bytes()) {
        return Err(
            KernelError::Manifest("pre_hash mismatch for routing.subscriptions".to_owned()),
        );
    }
    manifest.routing = Some(op.subscriptions);
    Ok(())
}

/// What one change makes of a manifest and the list of new definitions.
pub open spec fn op_applied(
    m: ManifestView,
    nodes: Seq<NodeTree>,
    op: PatchOp,
) -> Result<(ManifestView, Seq<NodeTree>), Seq<char>> {
    match op {
        PatchOp::AddDef { add_def } => {
            let n = add_def.node@;
            if add_def.kind@ != n.kind.name() {
                Err(kind_fault(add_def.kind@, n.kind.name()))
            } else {
                match def_name(n) {
                    None => Ok((m, nodes.push(n))),
                    Some(name) => if is_sys(name) {
                        Err(sys_fault(name, "add"@))
                    } else {
                        match placeholder_inserted(m, add_def.kind@, name) {
                            Err(e) => Err(e),
                            Ok(after) => Ok((after, nodes.push(n))),
                        }
                    },
                }
            }
        },
        PatchOp::ReplaceDef { replace_def } => {
            let n = replace_def.new_node@;
            if replace_def.kind@ != n.kind.name() {
                Err(kind_fault(replace_def.kind@, n.kind.name()))
            } else if is_sys(replace_def.name@) {
                Err(sys_fault(replace_def.name@, "replace"@))
            } else if def_name(n) is Some && is_sys(n.name) {
                Err(sys_fault(n.name, "replace"@))
            } else {
                match ref_updated(
                    m,
                    replace_def.kind@,
                    replace_def.name@,
                    replace_def.pre_hash@,
                    false,
                ) {
                    Err(e) => Err(e),
                    Ok(after) => Ok((after, nodes.push(n))),
                }
            }
        },
        PatchOp::RemoveDef { remove_def } => if is_sys(remove_def.name@) {
            Err(sys_fault(remove_def.name@, "remove"@))
        } else {
            match ref_updated(
                m,
                remove_def.kind@,
                remove_def.name@,
                remove_def.pre_hash@,
                true,
            ) {
                Err(e) => Err(e),
                Ok(after) => Ok((after, nodes)),
            }
        },
        PatchOp::SetManifestRefs { set_manifest_refs } => match (
            first_sys_add(set_manifest_refs.add@, set_manifest_refs.add@.len()),
            first_sys_remove(set_manifest_refs.remove@, set_manifest_refs.remove@.len()),
        ) {
            (Some(x), _) => Err(sys_fault(x, "add manifest ref for"@)),
            (None, Some(x)) => Err(sys_fault(x, "remove manifest ref for"@)),
            (None, None) => match manifest_refs_applied(m, set_manifest_refs) {
                Err(e) => Err(e),
                Ok(after) => Ok((after, nodes)),
            },
        },
        PatchOp::SetRoutingSubscriptions { set_routing_subscriptions } => match routing_applied(
            m,
            set_routing_subscriptions,
        ) {
            Err(e) => Err(e),
            Ok(after) => Ok((after, nodes)),
        },
    }
}

/// Applies one change.
fn apply_op(
    manifest: &mut Manifest,
    nodes: &mut Vec<AirNode>,
    op: PatchOp,
) -> (r: Result<(), KernelError>)
    ensures
        match (r, op_applied(old(manifest)@, nodes_view(old(nodes)@), op)) {
            (Ok(_), Ok((m, ns))) => final(manifest)@ == m && nodes_view(final(nodes)@) == ns,
            (Err(e), Err(t)) => is_manifest_error(e, t),
            _ => false,
        },
{
    let ghost before = nodes_view(nodes@);
    match op {
        PatchOp::AddDef { add_def } => {
            match enforce_kind(add_def.kind.as_str(), &add_def.node) {
                Ok(_) => {},
                Err(e) => {
                    return Err(e);
                },
            }
            if let Some(name) = node_name(&add_def.node) {
                match reject_sys_name(name, "add") {
                    Ok(_) => {},
                    Err(e) => {
                        return Err(e);
                    },
                }
                match insert_placeholder_ref(manifest, add_def.kind.as_str(), name) {
                    Ok(_) => {},
                    Err(e) => {
                        return Err(e);
                    },
                }
            }
            let ghost n = add_def.node@;
            nodes.push(add_def.node);
            assert(nodes_view(nodes@) =~= before.push(n));
            Ok(())
        },
        PatchOp::ReplaceDef { replace_def } => {
            match enforce_kind(replace_def.kind.as_str(), &replace_def.new_node) {
                Ok(_) => {},
                Err(e) => {
                    return Err(e);
                },
            }
            match reject_sys_name(replace_def.name.as_str(), "replace") {
                Ok(_) => {},
                Err(e) => {
                    return Err(e);
                },
            }
            if let Some(name) = node_name(&replace_def.new_node) {
                match reject_sys_name(name, "replace") {
                    Ok(_) => {},
                    Err(e) => {
                        return Err(e);
                    },
                }
            }
            match update_manifest_ref_hash(
                manifest,
                replace_def.kind.as_str(),
                replace_def.name.as_str(),
                replace_def.pre_hash.as_str(),
                false,
            ) {
                Ok(_) => {},
                Err(e) => {
                    return Err(e);
                },
            }
            let ghost n = replace_def.new_node@;
            nodes.push(replace_def.new_node);
            assert(nodes_view(nodes@) =~= before.push(n));
            Ok(())
        },
        PatchOp::RemoveDef { remove_def } => {
            match reject_sys_name(remove_def.name.as_str(), "remove") {
                Ok(_) => {},
                Err(e) => {
                    return Err(e);
                },
            }
            update_manifest_ref_hash(
                manifest,
                remove_def.kind.as_str(),
                remove_def.name.as_str(),
                remove_def.pre_hash.as_str(),
                true,
            )
        },
        PatchOp::SetManifestRefs { set_manifest_refs } => {
            match reject_sys_refs(&set_manifest_refs) {
                Ok(_) => {},
                Err(e) => {
                    return Err(e);
                },
            }
            apply_manifest_refs(manifest, &set_manifest_refs)
        },
        PatchOp::SetRoutingSubscriptions { set_routing_subscriptions } => {
            apply_routing_subscriptions(manifest, set_routing_subscriptions)
        },
    }
}

/// What the first `n` changes make of a manifest; of several faults the first counts.
pub open spec fn ops_applied(
    m: ManifestView,
    ops: Seq<PatchOp>,
    n: nat,
) -> Result<(ManifestView, Seq<NodeTree>), Seq<char>>
    decreases n,
{
    if n == 0 || n > ops.len() {
        Ok((m, Seq::empty()))
    } else {
        match ops_applied(m, ops, (n - 1) as nat) {
            Err(e) => Err(e),
            Ok((mid, nodes)) => op_applied(mid, nodes, ops[n - 1]),
        }
    }
}

proof fn lemma_ops_fault(
    m: ManifestView,
    ops: Seq<PatchOp>,
    k: nat,
    n: nat,
)
    requires
        k <= n <= ops.len(),
        ops_applied(m, ops, k) is Err,
    ensures
        ops_applied(m, ops, n) == ops_applied(m, ops, k),
    decreases n,
{
    if k < n {
        lemma_ops_fault(m, ops, k, (n - 1) as nat);
    }
}

/// Applies the changes in order.
pub fn apply_patch_ops(
    manifest: Manifest,
    ops: Vec<PatchOp>,
) -> (r: Result<(Manifest, Vec<AirNode>), KernelError>)
    ensures
        match (r, ops_applied(manifest@, ops@, ops@.len())) {
            (Ok((m, ns)), Ok((mv, nv))) => m@ == mv && nodes_view(ns@) == nv,
            (Err(e), Err(t)) => is_manifest_error(e, t),
            _ => false,
        },
{
    let ghost start = manifest@;
    let ghost all = ops@;
    let n: usize = ops.len();
    let mut queue: Vec<PatchOp> = Vec::new();
    let mut source = ops;
    while source.len() > 0
        invariant
            source@.len() + queue@.len() == n,
            n == all.len(),
            source@ == all.take(source@.len() as int),
            forall|i: int| 0 <= i < queue@.len() ==> #[trigger] queue@[i] == all[n - 1 - i],
        decreases source@.len(),
    {
        match source.pop() {
            Some(op) => {
                queue.push(op);
            },
            None => {},
        }
        assert(source@ =~= all.take(source@.len() as int));
    }
    let mut m = manifest;
    let mut nodes: Vec<AirNode> = Vec::new();
    let mut i: usize = 0;
    assert(nodes_view(nodes@) =~= Seq::empty());
    while i < n
        invariant
            i <= n,
            n == all.len(),
            all == ops@,
            start == manifest@,
            queue@.len() == n - i,
            forall|k: int| 0 <= k < queue@.len() ==> #[trigger] queue@[k] == all[n - 1 - k],
            ops_applied(start, all, i as nat) == Ok::<_, Seq<char>>(
                (m@, nodes_view(nodes@)),
            ),
        decreases n - i,
    {
        match queue.pop() {
            None => {},
            Some(op) => {
                assert(op == all[i as int]);
                match apply_op(&mut m, &mut nodes, op) {
                    Ok(_) => {},
                    Err(e) => {
                        proof {
                            lemma_ops_fault(start, all, (i + 1) as nat, all.len());
                        }
                        return Err(e);
                    },
                }
            },
        }
        i += 1;
    }
    Ok((m, nodes))
}

/// What a store holds after the first `n` definitions have been put into it.
pub open spec fn nodes_stored(
    before: Map<Seq<u8>, NodeTree>,
    nodes: Seq<NodeTree>,
    n: nat,
) -> Map<Seq<u8>, NodeTree>
    decreases n,
{
    if n == 0 || n > nodes.len() {
        before
    } else {
        or_insert(
            nodes_stored(before, nodes, (n - 1) as nat),
            sha256(nodes[n - 1].bytes),
            nodes[n - 1],
        )
    }
}

/// Whether putting definitions into a store stopped at one that the store refused: those before it
/// are in the store, and the error says why.
pub open spec fn storing_stopped<S: Store<AirNode>>(
    e: KernelError,
    before: S,
    after: S,
    nodes: Seq<NodeTree>,
) -> bool {
    exists|n: nat, at: S, why: StoreError|
        n < nodes.len() && at.blobs() == before.blobs() && at.nodes() == nodes_stored(
            before.nodes(),
            nodes,
            n,
        ) && after.nodes() == at.nodes() && #[trigger] write_fails::<AirNode, S>(
            at,
            nodes[n as int],
            why,
        ) && is_manifest_error(e, why.text())
}

/// Puts definitions into a store, in order.
fn store_nodes<S: Store<AirNode>>(store: &mut S, nodes: &Vec<AirNode>) -> (r: Result<
    (),
    KernelError,
>)
    ensures
        final(store).blobs() == old(store).blobs(),
        match r {
            Ok(_) => final(store).nodes() == nodes_stored(
                old(store).nodes(),
                nodes_view(nodes@),
                nodes@.len(),
            ),
            Err(e) => storing_stopped(e, *old(store), *final(store), nodes_view(nodes@)),
        },
{
    let ghost before = store.nodes();
    let mut i: usize = 0;
    while i < nodes.len()
        invariant
            i <= nodes@.len(),
            before == old(store).nodes(),
            store.blobs() == old(store).blobs(),
            store.nodes() == nodes_stored(before, nodes_view(nodes@), i as nat),
        decreases nodes@.len() - i,
    {
        let ghost at = *store;
        match store.put_node(&nodes[i]) {
            Ok(_) => {},
            Err(e) => {
                proof {
                    assert(nodes_view(nodes@)[i as int] == nodes@[i as int]@);
                    assert(write_fails::<AirNode, S>(at, nodes_view(nodes@)[i as int], e));
                }
                return Err(KernelError::Manifest(e.message()));
            },
        }
        i += 1;
    }
    Ok(())
}

/// What a patch document says against a manifest, up to the point where a store is needed.
pub open spec fn drafted(
    doc: PatchDocument,
    base: ManifestView,
) -> Result<PatchView, Seq<char>> {
    match ops_applied(base, doc.patches@, doc.patches@.len()) {
        Err(e) => Err(e),
        Ok((m, nodes)) => Ok(PatchView { manifest: m, nodes }),
    }
}

/// The patch that a draft comes to: in canonical form, with its references rewritten to the
/// definitions it brings.
pub open spec fn compiled(draft: PatchView, builtins: Builtins) -> PatchView {
    let c = normalized(draft, builtins);
    PatchView { manifest: rewritten(c.manifest, c.nodes), nodes: c.nodes }
}

/// Why the head of a patch document is refused.
pub open spec fn head_fault(doc: PatchDocument) -> Option<Seq<char>> {
    if doc.version@ != "2"@ {
        Some("unsupported patch document version: "@ + doc.version@)
    } else if !is_hash_text(doc.base_manifest_hash@) {
        Some("invalid base_manifest_hash: "@ + hash_fault(doc.base_manifest_hash@))
    } else {
        None
    }
}

/// The digest of the manifest that a patch document changes.
pub fn base_manifest_hash(doc: &PatchDocument) -> (r: Result<ContentHash, KernelError>)
    ensures
        match (r, head_fault(*doc)) {
            (Ok(h), None) => h@ == hex_bytes(doc.base_manifest_hash@.skip(7)),
            (Err(e), Some(t)) => is_manifest_error(e, t),
            _ => false,
        },
{
    if !str_eq(doc.version.as_str(), "2") {
        return Err(
            KernelError::Manifest(
                join2("unsupported patch document version: ", doc.version.as_str()),
            ),
        );
    }
    match ContentHash::from_hex_str(doc.base_manifest_hash.as_str()) {
        Ok(h) => Ok(h),
        Err(e) => Err(
            KernelError::Manifest(join2("invalid base_manifest_hash: ", e.message().as_str())),
        ),
    }
}

/// Whether a result is the patch that a document makes of a manifest, with the definitions that it
/// brings in the store, or what stopped it.
pub open spec fn document_compiled<S: Store<AirNode>>(
    r: Result<ManifestPatch, KernelError>,
    before: S,
    after: S,
    doc: PatchDocument,
    base: ManifestView,
    builtins: Builtins,
) -> bool {
    &&& after.blobs() == before.blobs()
    &&& match (head_fault(doc), drafted(doc, base)) {
        (Some(t), _) => r is Err && is_manifest_error(r->Err_0, t) && after.nodes()
            == before.nodes(),
        (None, Err(t)) => r is Err && is_manifest_error(r->Err_0, t) && after.nodes()
            == before.nodes(),
        (None, Ok(draft)) => match r {
            Ok(p) => p@ == compiled(draft, builtins) && after.nodes() == nodes_stored(
                before.nodes(),
                draft.nodes,
                draft.nodes.len(),
            ),
            Err(e) => {
                ||| after.nodes() == before.nodes() && schema_unread(
                    e,
                    before,
                    draft.manifest.schemas,
                    builtins.schemas@,
                    draft.nodes,
                )
                ||| storing_stopped(e, before, after, draft.nodes)
            },
        },
    }
}

/// Turns a patch document into a patch of `base`, the manifest that the document names, and stores
/// the definitions that the patch brings.
pub fn compile_patch_document<S: Store<AirNode>>(
    store: &mut S,
    doc: PatchDocument,
    base: Manifest,
    builtins: &Builtins,
) -> (r: Result<ManifestPatch, KernelError>)
    ensures
        document_compiled(r, *old(store), *final(store), doc, base@, *builtins),
{
    match base_manifest_hash(&doc) {
        Ok(_) => {},
        Err(e) => {
            return Err(e);
        },
    }
    let (manifest, nodes) = match apply_patch_ops(base, doc.patches) {
        Ok(done) => done,
        Err(e) => {
            return Err(e);
        },
    };
    let patch = ManifestPatch { manifest, nodes };
    let mut canonical = match canonicalize_patch(store, patch, builtins) {
        Ok(p) => p,
        Err(e) => {
            return Err(e);
        },
    };
    rewrite_manifest_refs(&mut canonical.manifest, &canonical.nodes);
    match store_nodes(store, &canonical.nodes) {
        Ok(_) => Ok(canonical),
        Err(e) => Err(e),
    }
}

} // verus!
