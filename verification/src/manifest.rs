//! Loaded manifests.
use vstd::prelude::*;

use crate::air::{builtin_index, find_builtin, find_ref, has_ref, is_builtin, is_sys, is_sys_name,
    refs_view, AirNode, Builtin, Builtins, Manifest, ManifestView, NamedRef, NodeKind, NodeTree,
    RefView};
use crate::error::{is_manifest_error, KernelError};
use crate::governance::{nodes_view, ManifestPatch, PatchView};
use crate::hash::{hash_text, lemma_hash_text_reads_back, sha256, ContentHash, HashRef};
use crate::manifest_catalog::{catalog_failed, catalog_loaded, load_manifest_from_bytes, load_step,
    Catalog, CatalogEntry, EntryView, LoadStep};
use crate::names::{deep, folded, lemma_deep_insert, lemma_entries_map, lemma_folded,
    names_distinct, NameMap};
use crate::patch_doc::nodes_stored;
use crate::store::{node_put, read_fails, write_fails, Store, StoreError, StoreNode};
use crate::text::{join2, join4, join5, str_eq};

pub mod laws;

verus! {

/// A manifest with its definitions.
#[derive(Debug)]
pub struct LoadedManifest {
    pub manifest: Manifest,
    pub secrets: Vec<AirNode>,
    pub modules: NameMap<AirNode>,
    pub workflows: NameMap<AirNode>,
    pub ops: NameMap<AirNode>,
    pub effects: NameMap<AirNode>,
    pub schemas: NameMap<AirNode>,
    pub effect_catalog: EffectCatalog,
}

/// The definitions by which effects are known.
#[derive(Debug)]
pub struct EffectCatalog {
    pub effects: NameMap<AirNode>,
}

impl View for EffectCatalog {
    type V = Map<Seq<char>, NodeTree>;

    open spec fn view(&self) -> Map<Seq<char>, NodeTree> {
        deep(self.effects.map())
    }
}

impl EffectCatalog {
    /// The catalog of definitions.
    pub fn from_effects(defs: &NameMap<AirNode>) -> (r: Self)
        ensures
            r@ == deep(defs.map()),
    {
        EffectCatalog { effects: copy_defs(defs) }
    }
}

/// A copy of definitions.
fn copy_defs(defs: &NameMap<AirNode>) -> (r: NameMap<AirNode>)
    ensures
        deep(r.map()) == deep(defs.map()),
{
    let entries = defs.entries();
    let ghost list = entries@;
    let mut out: NameMap<AirNode> = NameMap::new();
    let mut i: usize = 0;
    assert(deep(out.map()) =~= deep(folded(list.take(0))));
    while i < entries.len()
        invariant
            i <= entries@.len(),
            list == entries@,
            deep(out.map()) == deep(folded(list.take(i as int))),
        decreases entries@.len() - i,
    {
        let node = entries[i].1.copied();
        proof {
            let front = list.take(i as int);
            assert(list.take(i + 1).drop_last() =~= front);
            lemma_deep_insert(folded(front), list[i as int].0@, list[i as int].1);
            lemma_deep_insert(out.map(), list[i as int].0@, node);
        }
        out.insert(entries[i].0.clone(), node);
        i += 1;
    }
    proof {
        assert(list.take(i as int) =~= list);
        lemma_folded(list);
    }
    out
}

/// The model of a loaded manifest.
#[verifier::ext_equal]
pub struct LoadedView {
    pub manifest: ManifestView,
    pub secrets: Seq<NodeTree>,
    pub modules: Map<Seq<char>, NodeTree>,
    pub workflows: Map<Seq<char>, NodeTree>,
    pub ops: Map<Seq<char>, NodeTree>,
    pub effects: Map<Seq<char>, NodeTree>,
    pub schemas: Map<Seq<char>, NodeTree>,
    pub effect_catalog: Map<Seq<char>, NodeTree>,
}

impl View for LoadedManifest {
    type V = LoadedView;

    open spec fn view(&self) -> LoadedView {
        LoadedView {
            manifest: self.manifest@,
            secrets: nodes_view(self.secrets@),
            modules: deep(self.modules.map()),
            workflows: deep(self.workflows.map()),
            ops: deep(self.ops.map()),
            effects: deep(self.effects.map()),
            schemas: deep(self.schemas.map()),
            effect_catalog: self.effect_catalog@,
        }
    }
}

/// Loads manifests.
#[derive(Debug)]
pub struct ManifestLoader;

/// How manifests are written and read, and when one fits its definitions.
pub trait ManifestCodec {
    /// The canonical encoding of a manifest.
    fn encode(&self, manifest: &Manifest) -> Result<Vec<u8>, String>;

    /// What bytes hold, read as a manifest.
    fn decode(&self, bytes: &[u8]) -> Result<Manifest, String>;

    /// Checks a manifest with its definitions, and those of the secrets among them.
    fn check(&self, loaded: &LoadedManifest, secrets: &NameMap<AirNode>) -> Result<(), String>;
}

/// The definitions of one kind among catalog entries.
pub open spec fn of_kind(nodes: Map<Seq<char>, EntryView>, kind: NodeKind) -> Map<
    Seq<char>,
    NodeTree,
> {
    Map::new(
        |n: Seq<char>| nodes.contains_key(n) && nodes[n].1.kind == kind,
        |n: Seq<char>| nodes[n].1,
    )
}

fn pick_kind(nodes: &NameMap<CatalogEntry>, kind: NodeKind) -> (r: NameMap<AirNode>)
    ensures
        deep(r.map()) == of_kind(deep(nodes.map()), kind),
{
    let entries = nodes.entries();
    let ghost list = entries@;
    let mut out: NameMap<AirNode> = NameMap::new();
    let mut i: usize = 0;
    assert(deep(out.map()) =~= of_kind(deep(folded(list.take(0))), kind));
    while i < entries.len()
        invariant
            i <= entries@.len(),
            list == entries@,
            names_distinct(list),
            deep(out.map()) == of_kind(deep(folded(list.take(i as int))), kind),
        decreases entries@.len() - i,
    {
        let ghost front = list.take(i as int);
        let ghost name = list[i as int].0@;
        let ghost entry = list[i as int].1;
        let ghost before = out.map();
        proof {
            assert(list.take(i + 1).drop_last() =~= front);
            assert(names_distinct(front)) by {
                assert forall|a: int, b: int| 0 <= a < b < front.len() implies front[a].0@
                    != front[b].0@ by {
                    assert(list[a].0@ != list[b].0@);
                }
            }
            lemma_folded(front);
            lemma_entries_map(front);
            assert(!folded(front).contains_key(name)) by {
                if folded(front).contains_key(name) {
                    let k = choose|k: int| 0 <= k < front.len() && (#[trigger] front[k]).0@ == name;
                    assert(list[k].0@ == list[i as int].0@);
                }
            }
            lemma_deep_insert(folded(front), name, entry);
        }
        if entries[i].1.node.kind == kind {
            let node = entries[i].1.node.copied();
            proof {
                lemma_deep_insert(out.map(), name, node);
            }
            out.insert(entries[i].0.clone(), node);
            assert(deep(out.map()) =~= of_kind(deep(folded(list.take(i + 1))), kind));
        } else {
            assert(deep(out.map()) =~= of_kind(deep(folded(list.take(i + 1))), kind));
        }
        i += 1;
    }
    proof {
        assert(list.take(i as int) =~= list);
        lemma_folded(list);
    }
    out
}

/// Definitions, with the first `n` built-in ones in the places that are free; where `only` is
/// given, just those that it refers to.
pub open spec fn with_builtins(
    defs: Map<Seq<char>, NodeTree>,
    items: Seq<Builtin>,
    only: Option<Seq<RefView>>,
    n: nat,
) -> Map<Seq<char>, NodeTree>
    decreases n,
{
    if n == 0 || n > items.len() {
        defs
    } else {
        let before = with_builtins(defs, items, only, (n - 1) as nat);
        let b = items[n - 1];
        let wanted = match only {
            None => true,
            Some(refs) => has_ref(refs, b.node.name@),
        };
        if wanted && !before.contains_key(b.node.name@) {
            before.insert(b.node.name@, b.node@)
        } else {
            before
        }
    }
}

pub open spec fn only_view(only: Option<&Vec<NamedRef>>) -> Option<Seq<RefView>> {
    match only {
        Some(v) => Some(refs_view(v@)),
        None => None,
    }
}

/// Puts built-in definitions in the places that are free.
pub fn fill_builtins(
    defs: &mut NameMap<AirNode>,
    items: &Vec<Builtin>,
    only: Option<&Vec<NamedRef>>,
)
    ensures
        deep(final(defs).map()) == with_builtins(
            deep(old(defs).map()),
            items@,
            only_view(only),
            items@.len(),
        ),
{
    let ghost start = deep(defs.map());
    let mut i: usize = 0;
    while i < items.len()
        invariant
            i <= items@.len(),
            start == deep(old(defs).map()),
            deep(defs.map()) == with_builtins(start, items@, only_view(only), i as nat),
        decreases items@.len() - i,
    {
        let b = &items[i];
        let wanted = match only {
            None => true,
            Some(refs) => find_ref(refs, b.node.name.as_str()) < refs.len(),
        };
        let free = !defs.contains_key(b.node.name.as_str());
        proof {
            lemma_deep_insert(defs.map(), b.node.name@, b.node);
        }
        if wanted && free {
            let node = b.node.copied();
            proof {
                lemma_deep_insert(defs.map(), b.node.name@, node);
            }
            defs.insert(b.node.name.clone(), node);
        }
        i += 1;
    }
}

/// A definition that is there stays; a built-in one comes in only where its name is free.
pub proof fn lemma_builtins_do_not_replace(
    defs: Map<Seq<char>, NodeTree>,
    items: Seq<Builtin>,
    only: Option<Seq<RefView>>,
    n: nat,
    name: Seq<char>,
)
    requires
        defs.contains_key(name),
    ensures
        with_builtins(defs, items, only, n).contains_key(name),
        with_builtins(defs, items, only, n)[name] == defs[name],
    decreases n,
{
    if n > 0 && n <= items.len() {
        lemma_builtins_do_not_replace(defs, items, only, (n - 1) as nat, name);
    }
}

/// What a catalog comes to: its definitions by kind, with the built-in ones.
pub open spec fn assembled(
    manifest: ManifestView,
    nodes: Map<Seq<char>, EntryView>,
    secrets: Seq<NodeTree>,
    builtins: Builtins,
) -> LoadedView {
    LoadedView {
        manifest,
        secrets,
        modules: with_builtins(
            of_kind(nodes, NodeKind::Module),
            builtins.modules@,
            None,
            builtins.modules@.len(),
        ),
        workflows: with_builtins(
            of_kind(nodes, NodeKind::Workflow),
            builtins.workflows@,
            None,
            builtins.workflows@.len(),
        ),
        ops: of_kind(nodes, NodeKind::Op),
        effects: with_builtins(
            of_kind(nodes, NodeKind::Effect),
            builtins.effects@,
            None,
            builtins.effects@.len(),
        ),
        schemas: with_builtins(
            of_kind(nodes, NodeKind::Schema),
            builtins.schemas@,
            None,
            builtins.schemas@.len(),
        ),
        effect_catalog: with_builtins(
            of_kind(nodes, NodeKind::Effect),
            builtins.effects@,
            None,
            builtins.effects@.len(),
        ),
    }
}

/// Whether a result is a manifest with the definitions of a catalog, or the fault that a check of
/// them found.
pub open spec fn checked<C: ManifestCodec>(
    r: Result<LoadedManifest, KernelError>,
    codec: &C,
    catalog: Catalog,
    builtins: Builtins,
) -> bool {
    exists|x: LoadedManifest, secrets: NameMap<AirNode>, told: Result<(), String>|
        x@ == assembled(
            catalog.manifest@,
            deep(catalog.nodes.map()),
            nodes_view(catalog.resolved_secrets@),
            builtins,
        ) && deep(secrets.map()) == of_kind(deep(catalog.nodes.map()), NodeKind::Secret)
            && #[trigger] call_ensures(C::check, (codec, &x, &secrets), told) && match told {
            Ok(_) => r == Ok::<LoadedManifest, KernelError>(x),
            Err(t) => r is Err && (r->Err_0 matches KernelError::ManifestValidation(m) && m == t),
        }
}

/// Whether a result is the manifest that bytes hold, read as `parsed`, with its definitions, or
/// says why it cannot be had.
pub open spec fn catalog_checked<S: Store<AirNode>, C: ManifestCodec>(
    r: Result<LoadedManifest, KernelError>,
    store: S,
    codec: &C,
    bytes: Seq<u8>,
    parsed: Result<Manifest, String>,
    builtins: Builtins,
) -> bool {
    ||| exists|c: Catalog| #[trigger]
        catalog_loaded(bytes, parsed, builtins, store.nodes(), c) && checked(r, codec, c, builtins)
    ||| exists|f: StoreError| #[trigger]
        catalog_failed(bytes, parsed, builtins, store, f@) && r is Err && is_manifest_error(
            r->Err_0,
            "load manifest: "@ + f.text(),
        )
}

/// What loading the manifest in bytes comes to, which the codec reads.
pub open spec fn bytes_loaded<S: Store<AirNode>, C: ManifestCodec>(
    r: Result<LoadedManifest, KernelError>,
    store: S,
    codec: &C,
    bytes: Seq<u8>,
    builtins: Builtins,
) -> bool {
    exists|b: &[u8], parsed: Result<Manifest, String>|
        b@ == bytes && #[trigger] call_ensures(C::decode, (codec, b), parsed) && catalog_checked(
            r,
            store,
            codec,
            bytes,
            parsed,
            builtins,
        )
}

/// What loading a manifest comes to: it is written, and read again with its definitions.
pub open spec fn loaded_again<S: Store<AirNode>, C: ManifestCodec>(
    r: Result<LoadedManifest, KernelError>,
    store: S,
    codec: &C,
    manifest: Manifest,
    builtins: Builtins,
) -> bool {
    exists|told: Result<Vec<u8>, String>| #[trigger]
        call_ensures(C::encode, (codec, &manifest), told) && match told {
            Err(t) => r is Err && is_manifest_error(r->Err_0, "encode manifest: "@ + t@),
            Ok(b) => bytes_loaded(r, store, codec, b@, builtins),
        }
}

/// What loading the manifest under a digest comes to.
pub open spec fn hash_loaded<S: Store<AirNode>, C: ManifestCodec>(
    r: Result<LoadedManifest, KernelError>,
    store: S,
    codec: &C,
    hash: Seq<u8>,
    builtins: Builtins,
) -> bool {
    ||| r is Err && (r->Err_0 matches KernelError::Store(e) && read_fails::<AirNode, S>(
        store,
        hash,
        e,
    ))
    ||| store.nodes().contains_key(hash) && exists|b: &[u8], parsed: Result<Manifest, String>|
        b@ == store.nodes()[hash].bytes && #[trigger] call_ensures(C::decode, (codec, b), parsed)
            && match parsed {
            Err(t) => r is Err && (r->Err_0 matches KernelError::Store(StoreError::Cbor(m)) && m
                == t),
            Ok(m) => loaded_again(r, store, codec, m, builtins),
        }
}

impl ManifestLoader {
    /// Sorts the definitions of a catalog by kind, adds the built-in ones, and has them checked.
    pub fn from_catalog<C: ManifestCodec>(catalog: Catalog, codec: &C, builtins: &Builtins) -> (r:
        Result<LoadedManifest, KernelError>)
        ensures
            checked(r, codec, catalog, *builtins),
    {
        let ghost whole = catalog;
        let mut modules = pick_kind(&catalog.nodes, NodeKind::Module);
        let mut workflows = pick_kind(&catalog.nodes, NodeKind::Workflow);
        let ops = pick_kind(&catalog.nodes, NodeKind::Op);
        let mut effects = pick_kind(&catalog.nodes, NodeKind::Effect);
        let mut schemas = pick_kind(&catalog.nodes, NodeKind::Schema);
        let secret_defs = pick_kind(&catalog.nodes, NodeKind::Secret);
        fill_builtins(&mut schemas, &builtins.schemas, None);
        fill_builtins(&mut modules, &builtins.modules, None);
        fill_builtins(&mut workflows, &builtins.workflows, None);
        fill_builtins(&mut effects, &builtins.effects, None);
        let effect_catalog = EffectCatalog::from_effects(&effects);
        let loaded = LoadedManifest {
            manifest: catalog.manifest,
            secrets: catalog.resolved_secrets,
            modules,
            workflows,
            ops,
            effects,
            schemas,
            effect_catalog,
        };
        let told = codec.check(&loaded, &secret_defs);
        assert(call_ensures(C::check, (codec, &loaded, &secret_defs), told));
        assert(loaded@ == assembled(
            whole.manifest@,
            deep(whole.nodes.map()),
            nodes_view(whole.resolved_secrets@),
            *builtins,
        ));
        Self::validated(loaded, told)
    }

    /// Loads the manifest that `bytes` hold.
    pub fn load_from_bytes<S: Store<AirNode>, C: ManifestCodec>(
        store: &S,
        bytes: &[u8],
        codec: &C,
        builtins: &Builtins,
    ) -> (r: Result<LoadedManifest, KernelError>)
        ensures
            bytes_loaded(r, *store, codec, bytes@, *builtins),
    {
        let parsed = codec.decode(bytes);
        let ghost told = parsed;
        assert(call_ensures(C::decode, (codec, bytes), told));
        let r = match load_manifest_from_bytes(store, bytes, parsed, builtins) {
            Ok(c) => {
                assert(catalog_loaded(bytes@, told, *builtins, store.nodes(), c));
                Self::from_catalog(c, codec, builtins)
            },
            Err(f) => {
                assert(catalog_failed(bytes@, told, *builtins, *store, f@));
                let why = f.message();
                Err(KernelError::Manifest(join2("load manifest: ", why.as_str())))
            },
        };
        assert(catalog_checked(r, *store, codec, bytes@, told, *builtins));
        r
    }

    /// Loads a manifest.
    pub fn load_from_manifest<S: Store<AirNode>, C: ManifestCodec>(
        store: &S,
        manifest: &Manifest,
        codec: &C,
        builtins: &Builtins,
    ) -> (r: Result<LoadedManifest, KernelError>)
        ensures
            loaded_again(r, *store, codec, *manifest, *builtins),
    {
        let encoded = codec.encode(manifest);
        let ghost told = encoded;
        assert(call_ensures(C::encode, (codec, manifest), told));
        match encoded {
            Ok(bytes) => Self::load_from_bytes(store, bytes.as_slice(), codec, builtins),
            Err(t) => Err(KernelError::Manifest(join2("encode manifest: ", t.as_str()))),
        }
    }

    /// Loads the manifest that is stored under a digest.
    pub fn load_from_hash<S: Store<AirNode>, C: ManifestCodec>(
        store: &S,
        hash: ContentHash,
        codec: &C,
        builtins: &Builtins,
    ) -> (r: Result<LoadedManifest, KernelError>)
        ensures
            hash_loaded(r, *store, codec, hash@, *builtins),
    {
        let node = match store.get_node(hash) {
            Ok(n) => n,
            Err(e) => {
                assert(read_fails::<AirNode, S>(*store, hash@, e));
                return Err(KernelError::Store(e));
            },
        };
        let held = node.bytes.as_slice();
        let parsed = codec.decode(held);
        let ghost told = parsed;
        assert(call_ensures(C::decode, (codec, held), told));
        match parsed {
            Ok(m) => Self::load_from_manifest(store, &m, codec, builtins),
            Err(t) => Err(KernelError::Store(StoreError::Cbor(t))),
        }
    }

    /// The loaded manifest, or the fault that a check of it found.
    pub fn validated(loaded: LoadedManifest, check: Result<(), String>) -> (r: Result<
        LoadedManifest,
        KernelError,
    >)
        ensures
            match (r, check) {
                (Ok(m), Ok(_)) => m == loaded,
                (Err(KernelError::ManifestValidation(e)), Err(t)) => e == t,
                _ => false,
            },
    {
        match check {
            Ok(_) => Ok(loaded),
            Err(e) => Err(KernelError::ManifestValidation(e)),
        }
    }
}

/// The definitions of a list of entries, in order.
pub open spec fn values_view(entries: Seq<(String, AirNode)>) -> Seq<NodeTree> {
    Seq::new(entries.len(), |i: int| entries[i].1@)
}

fn push_values(out: &mut Vec<AirNode>, defs: &NameMap<AirNode>)
    ensures
        nodes_view(final(out)@) == nodes_view(old(out)@) + values_view(defs.list()),
{
    let entries = defs.entries();
    let ghost start = nodes_view(out@);
    let ghost all = values_view(entries@);
    let mut i: usize = 0;
    assert(start + all.take(0) =~= start);
    while i < entries.len()
        invariant
            i <= entries@.len(),
            all == values_view(entries@),
            nodes_view(out@) == start + all.take(i as int),
        decreases entries@.len() - i,
    {
        let ghost before = nodes_view(out@);
        out.push(entries[i].1.copied());
        assert(nodes_view(out@) =~= before.push(all[i as int]));
        assert(start + all.take(i + 1) =~= before.push(all[i as int]));
        i += 1;
    }
    assert(all.take(i as int) =~= all);
}

fn copy_nodes(nodes: &Vec<AirNode>) -> (r: Vec<AirNode>)
    ensures
        nodes_view(r@) == nodes_view(nodes@),
{
    let mut out: Vec<AirNode> = Vec::new();
    let mut i: usize = 0;
    while i < nodes.len()
        invariant
            i <= nodes@.len(),
            out@.len() == i,
            forall|k: int| 0 <= k < i ==> (#[trigger] out@[k])@ == nodes@[k]@,
        decreases nodes@.len() - i,
    {
        out.push(nodes[i].copied());
        i += 1;
    }
    assert(nodes_view(out@) =~= nodes_view(nodes@));
    out
}

/// A patch that brings all definitions of a loaded manifest: modules, schemas, workflows, effects
/// and secrets.
pub fn manifest_patch_from_loaded(loaded: &LoadedManifest) -> (r: ManifestPatch)
    ensures
        r@ == (PatchView {
            manifest: loaded.manifest@,
            nodes: values_view(loaded.modules.list()) + values_view(loaded.schemas.list())
                + values_view(loaded.workflows.list()) + values_view(loaded.effects.list())
                + nodes_view(loaded.secrets@),
        }),
{
    let mut nodes: Vec<AirNode> = Vec::new();
    assert(nodes_view(nodes@) + values_view(loaded.modules.list()) =~= values_view(
        loaded.modules.list(),
    ));
    push_values(&mut nodes, &loaded.modules);
    push_values(&mut nodes, &loaded.schemas);
    push_values(&mut nodes, &loaded.workflows);
    push_values(&mut nodes, &loaded.effects);
    let mut secrets = copy_nodes(&loaded.secrets);
    let ghost a = nodes@;
    let ghost b = secrets@;
    nodes.append(&mut secrets);
    assert(nodes_view(nodes@) =~= nodes_view(a) + nodes_view(b));
    ManifestPatch { manifest: loaded.manifest.copied(), nodes }
}

/// The error of a definition in the reserved space.
pub open spec fn reserved_fault(kind: Seq<char>, name: Seq<char>) -> Seq<char> {
    kind + " '"@ + name + "' is reserved; sys/* definitions must come from built-ins"@
}

/// Refuses a definition in the reserved space.
pub fn reject_sys_name(kind: &str, name: &str) -> (r: Result<(), KernelError>)
    ensures
        r is Ok <==> !is_sys(name@),
        r matches Err(e) ==> is_manifest_error(e, reserved_fault(kind@, name@)),
{
    if is_sys_name(name) {
        Err(
            KernelError::Manifest(
                join4(
                    kind,
                    " '",
                    name,
                    "' is reserved; sys/* definitions must come from built-ins",
                ),
            ),
        )
    } else {
        Ok(())
    }
}

/// The error of two definitions under one name.
pub open spec fn conflict_fault(
    kind: Seq<char>,
    name: Seq<char>,
    old_hash: Seq<char>,
    new_hash: Seq<char>,
) -> Seq<char> {
    "duplicate "@ + kind + " '"@ + name + "' has conflicting definitions ("@ + old_hash + ", "@
        + new_hash + ")"@
}

/// The digests with `name` bound to `hash`, unless it is bound to another one.
pub open spec fn hash_noted(
    kind: Seq<char>,
    hashes: Map<Seq<char>, Seq<char>>,
    name: Seq<char>,
    hash: Seq<char>,
) -> Result<Map<Seq<char>, Seq<char>>, Seq<char>> {
    if !hashes.contains_key(name) {
        Ok(hashes.insert(name, hash))
    } else if hashes[name] == hash {
        Ok(hashes)
    } else {
        Err(conflict_fault(kind, name, hashes[name], hash))
    }
}

fn insert_or_verify_hash(
    kind: &str,
    map: &mut NameMap<HashRef>,
    name: String,
    hash: HashRef,
) -> (r: Result<(), KernelError>)
    ensures
        match (r, hash_noted(kind@, deep(old(map).map()), name@, hash@)) {
            (Ok(_), Ok(m)) => deep(final(map).map()) == m,
            (Err(e), Err(t)) => is_manifest_error(e, t),
            _ => false,
        },
{
    proof {
        lemma_deep_insert(map.map(), name@, hash);
    }
    if let Some(existing) = map.get(name.as_str()) {
        if !str_eq(existing.as_str(), hash.as_str()) {
            let head = join5(
                "duplicate ",
                kind,
                " '",
                name.as_str(),
                "' has conflicting definitions (",
            );
            return Err(
                KernelError::Manifest(
                    join5(head.as_str(), existing.as_str(), ", ", hash.as_str(), ")"),
                ),
            );
        }
        return Ok(());
    }
    map.insert(name, hash);
    Ok(())
}

/// The digests of the first `n` definitions, by name. Reserved names are refused unless allowed.
pub open spec fn hashes_of(
    allow_sys: bool,
    kind: NodeKind,
    nodes: Seq<NodeTree>,
    n: nat,
) -> Result<Map<Seq<char>, Seq<char>>, Seq<char>>
    decreases n,
{
    if n == 0 || n > nodes.len() {
        Ok(Map::empty())
    } else {
        match hashes_of(allow_sys, kind, nodes, (n - 1) as nat) {
            Err(e) => Err(e),
            Ok(m) => {
                let node = nodes[n - 1];
                if !allow_sys && is_sys(node.name) {
                    Err(reserved_fault(kind.name(), node.name))
                } else {
                    hash_noted(kind.name(), m, node.name, hash_text(sha256(node.bytes)))
                }
            },
        }
    }
}

proof fn lemma_hashes_fault(allow_sys: bool, kind: NodeKind, nodes: Seq<NodeTree>, k: nat, n: nat)
    requires
        k <= n <= nodes.len(),
        hashes_of(allow_sys, kind, nodes, k) is Err,
    ensures
        hashes_of(allow_sys, kind, nodes, n) == hashes_of(allow_sys, kind, nodes, k),
    decreases n,
{
    if k < n {
        lemma_hashes_fault(allow_sys, kind, nodes, k, (n - 1) as nat);
    }
}

/// Whether writing definitions stopped at one that the store did not take.
pub open spec fn writing_stopped<S: Store<AirNode>>(
    e: KernelError,
    before: S,
    nodes: Seq<NodeTree>,
) -> bool {
    exists|n: nat, at: S|
        n < nodes.len() && at.blobs() == before.blobs() && at.nodes() == nodes_stored(
            before.nodes(),
            nodes,
            n,
        ) && e is Store && #[trigger] write_fails::<AirNode, S>(at, nodes[n as int], e->Store_0)
}

/// Stores definitions of one kind and notes their digests. It fails as the digests do, or as the
/// store does; some of the definitions, in order, are then in the store.
pub fn write_kind<S: Store<AirNode>>(
    store: &mut S,
    allow_reserved_sys: bool,
    kind: NodeKind,
    nodes: &Vec<AirNode>,
) -> (r: Result<NameMap<HashRef>, KernelError>)
    ensures
        final(store).blobs() == old(store).blobs(),
        match r {
            Ok(h) => hashes_of(allow_reserved_sys, kind, nodes_view(nodes@), nodes@.len())
                == Ok::<Map<Seq<char>, Seq<char>>, Seq<char>>(deep(h.map()))
                && final(store).nodes() == nodes_stored(
                old(store).nodes(),
                nodes_view(nodes@),
                nodes@.len(),
            ),
            Err(e) => {
                &&& writing_stopped(e, *old(store), nodes_view(nodes@)) || match hashes_of(
                    allow_reserved_sys,
                    kind,
                    nodes_view(nodes@),
                    nodes@.len(),
                ) {
                    Err(t) => is_manifest_error(e, t),
                    Ok(_) => false,
                }
                &&& exists|n: nat|
                    n <= nodes@.len() && final(store).nodes() == #[trigger] nodes_stored(
                        old(store).nodes(),
                        nodes_view(nodes@),
                        n,
                    )
            },
        },
{
    let ghost view = nodes_view(nodes@);
    let ghost before = store.nodes();
    let mut hashes: NameMap<HashRef> = NameMap::new();
    let mut i: usize = 0;
    assert(deep(hashes.map()) =~= Map::empty());
    while i < nodes.len()
        invariant
            i <= nodes@.len(),
            view == nodes_view(nodes@),
            before == old(store).nodes(),
            store.blobs() == old(store).blobs(),
            store.nodes() == nodes_stored(before, view, i as nat),
            hashes_of(allow_reserved_sys, kind, view, i as nat) == Ok::<
                Map<Seq<char>, Seq<char>>,
                Seq<char>,
            >(deep(hashes.map())),
        decreases nodes@.len() - i,
    {
        assert(view[i as int] == nodes@[i as int]@);
        let name = nodes[i].name.clone();
        if !allow_reserved_sys {
            match reject_sys_name(kind.label(), name.as_str()) {
                Ok(_) => {},
                Err(e) => {
                    proof {
                        lemma_hashes_fault(
                            allow_reserved_sys,
                            kind,
                            view,
                            (i + 1) as nat,
                            view.len(),
                        );
                    }
                    return Err(e);
                },
            }
        }
        let ghost at = *store;
        let hash = match store.put_node(&nodes[i]) {
            Ok(h) => h,
            Err(e) => {
                assert(write_fails::<AirNode, S>(at, view[i as int], e));
                return Err(KernelError::Store(e));
            },
        };
        match insert_or_verify_hash(kind.label(), &mut hashes, name, HashRef::of_hash(&hash)) {
            Ok(_) => {},
            Err(e) => {
                proof {
                    assert(store.nodes() == nodes_stored(before, view, (i + 1) as nat));
                    lemma_hashes_fault(allow_reserved_sys, kind, view, (i + 1) as nat, view.len());
                }
                return Err(e);
            },
        }
        i += 1;
    }
    Ok(hashes)
}

/// The digests of stored definitions, by kind.
#[derive(Debug)]
pub struct StoredHashes {
    pub schemas: NameMap<HashRef>,
    pub modules: NameMap<HashRef>,
    pub workflows: NameMap<HashRef>,
    pub effects: NameMap<HashRef>,
    pub secrets: NameMap<HashRef>,
}

/// The digest that a reference gets: that of the stored definition, else that of the built-in one.
pub open spec fn found_hash(
    kind: Seq<char>,
    name: Seq<char>,
    hashes: Map<Seq<char>, Seq<char>>,
    builtins: Builtins,
) -> Option<Seq<char>> {
    let at = |items: Seq<Builtin>| Some(items[builtin_index(items, name)].hash_ref@);
    if hashes.contains_key(name) {
        Some(hashes[name])
    } else if is_builtin(builtins.schemas@, name) {
        at(builtins.schemas@)
    } else if kind == "workflow"@ {
        if is_builtin(builtins.workflows@, name) {
            at(builtins.workflows@)
        } else {
            None
        }
    } else if kind == "effect"@ {
        if is_builtin(builtins.effects@, name) {
            at(builtins.effects@)
        } else {
            None
        }
    } else if kind == "module"@ {
        if is_builtin(builtins.modules@, name) {
            at(builtins.modules@)
        } else {
            None
        }
    } else {
        None
    }
}

fn find_hash(kind: &str, name: &str, hashes: &NameMap<HashRef>, builtins: &Builtins) -> (r: Option<
    HashRef,
>)
    ensures
        match (r, found_hash(kind@, name@, deep(hashes.map()), *builtins)) {
            (Some(h), Some(t)) => h@ == t,
            (None, None) => true,
            _ => false,
        },
{
    if let Some(h) = hashes.get(name) {
        return Some(h.clone());
    }
    if let Some(b) = find_builtin(&builtins.schemas, name) {
        return Some(b.hash_ref.clone());
    }
    let found = if str_eq(kind, "workflow") {
        find_builtin(&builtins.workflows, name)
    } else if str_eq(kind, "effect") {
        find_builtin(&builtins.effects, name)
    } else if str_eq(kind, "module") {
        find_builtin(&builtins.modules, name)
    } else {
        None
    };
    match found {
        Some(b) => Some(b.hash_ref.clone()),
        None => None,
    }
}

/// The error of a reference that nothing is known of.
pub open spec fn unknown_fault(kind: Seq<char>, name: Seq<char>) -> Seq<char> {
    "manifest references unknown "@ + kind + " '"@ + name + "'"@
}

/// The first `n` references with the digests that were found for them.
pub open spec fn refs_patched(
    kind: Seq<char>,
    refs: Seq<RefView>,
    hashes: Map<Seq<char>, Seq<char>>,
    builtins: Builtins,
    n: nat,
) -> Result<Seq<RefView>, Seq<char>>
    decreases n,
{
    if n == 0 || n > refs.len() {
        Ok(Seq::empty())
    } else {
        match refs_patched(kind, refs, hashes, builtins, (n - 1) as nat) {
            Err(e) => Err(e),
            Ok(done) => match found_hash(kind, refs[n - 1].0, hashes, builtins) {
                None => Err(unknown_fault(kind, refs[n - 1].0)),
                Some(h) => Ok(done.push((refs[n - 1].0, h))),
            },
        }
    }
}

proof fn lemma_refs_patched_fault(
    kind: Seq<char>,
    refs: Seq<RefView>,
    hashes: Map<Seq<char>, Seq<char>>,
    builtins: Builtins,
    k: nat,
    n: nat,
)
    requires
        k <= n <= refs.len(),
        refs_patched(kind, refs, hashes, builtins, k) is Err,
    ensures
        refs_patched(kind, refs, hashes, builtins, n) == refs_patched(
            kind,
            refs,
            hashes,
            builtins,
            k,
        ),
    decreases n,
{
    if k < n {
        lemma_refs_patched_fault(kind, refs, hashes, builtins, k, (n - 1) as nat);
    }
}

/// References with the digests that are found for them.
pub fn patch_named_refs(
    kind: &str,
    refs: &Vec<NamedRef>,
    hashes: &NameMap<HashRef>,
    builtins: &Builtins,
) -> (r: Result<Vec<NamedRef>, KernelError>)
    ensures
        match (
            r,
            refs_patched(kind@, refs_view(refs@), deep(hashes.map()), *builtins, refs@.len()),
        ) {
            (Ok(v), Ok(t)) => refs_view(v@) == t,
            (Err(e), Err(t)) => is_manifest_error(e, t),
            _ => false,
        },
{
    let ghost view = refs_view(refs@);
    let ghost known = deep(hashes.map());
    let mut out: Vec<NamedRef> = Vec::new();
    let mut i: usize = 0;
    assert(refs_view(out@) =~= Seq::empty());
    while i < refs.len()
        invariant
            i <= refs@.len(),
            view == refs_view(refs@),
            known == deep(hashes.map()),
            refs_patched(kind@, view, known, *builtins, i as nat) == Ok::<Seq<RefView>, Seq<char>>(
                refs_view(out@),
            ),
        decreases refs@.len() - i,
    {
        assert(view[i as int] == refs@[i as int]@);
        match find_hash(kind, refs[i].name.as_str(), hashes, builtins) {
            None => {
                proof {
                    lemma_refs_patched_fault(
                        kind@,
                        view,
                        known,
                        *builtins,
                        (i + 1) as nat,
                        view.len(),
                    );
                }
                return Err(
                    KernelError::Manifest(
                        join5(
                            "manifest references unknown ",
                            kind,
                            " '",
                            refs[i].name.as_str(),
                            "'",
                        ),
                    ),
                );
            },
            Some(hash) => {
                let ghost sofar = refs_view(out@);
                let ghost new_ref = (refs@[i as int].name@, hash@);
                out.push(NamedRef { name: refs[i].name.clone(), hash });
                assert(refs_view(out@) =~= sofar.push(new_ref));
            },
        }
        i += 1;
    }
    Ok(out)
}

/// What becomes of a manifest once its definitions are stored under `hashes`.
pub open spec fn manifest_patched(m: ManifestView, hashes: StoredHashes, builtins: Builtins) -> Result<
    ManifestView,
    Seq<char>,
> {
    let s = refs_patched(
        "schema"@,
        m.schemas,
        deep(hashes.schemas.map()),
        builtins,
        m.schemas.len(),
    );
    let o = refs_patched(
        "module"@,
        m.modules,
        deep(hashes.modules.map()),
        builtins,
        m.modules.len(),
    );
    let w = refs_patched(
        "workflow"@,
        m.workflows,
        deep(hashes.workflows.map()),
        builtins,
        m.workflows.len(),
    );
    let f = refs_patched(
        "effect"@,
        m.effects,
        deep(hashes.effects.map()),
        builtins,
        m.effects.len(),
    );
    let c = refs_patched(
        "secret"@,
        m.secrets,
        deep(hashes.secrets.map()),
        builtins,
        m.secrets.len(),
    );
    if s is Err {
        Err(s->Err_0)
    } else if o is Err {
        Err(o->Err_0)
    } else if w is Err {
        Err(w->Err_0)
    } else if f is Err {
        Err(f->Err_0)
    } else if c is Err {
        Err(c->Err_0)
    } else {
        Ok(
            ManifestView {
                schemas: s->Ok_0,
                modules: o->Ok_0,
                workflows: w->Ok_0,
                effects: f->Ok_0,
                secrets: c->Ok_0,
                ..m
            },
        )
    }
}

pub fn patch_manifest_refs(manifest: Manifest, hashes: &StoredHashes, builtins: &Builtins) -> (r:
    Result<Manifest, KernelError>)
    ensures
        match (r, manifest_patched(manifest@, *hashes, *builtins)) {
            (Ok(m), Ok(t)) => m@ == t,
            (Err(e), Err(t)) => is_manifest_error(e, t),
            _ => false,
        },
{
    let schemas = match patch_named_refs("schema", &manifest.schemas, &hashes.schemas, builtins) {
        Ok(v) => v,
        Err(e) => {
            return Err(e);
        },
    };
    let modules = match patch_named_refs("module", &manifest.modules, &hashes.modules, builtins) {
        Ok(v) => v,
        Err(e) => {
            return Err(e);
        },
    };
    let workflows = match patch_named_refs(
        "workflow",
        &manifest.workflows,
        &hashes.workflows,
        builtins,
    ) {
        Ok(v) => v,
        Err(e) => {
            return Err(e);
        },
    };
    let effects = match patch_named_refs("effect", &manifest.effects, &hashes.effects, builtins) {
        Ok(v) => v,
        Err(e) => {
            return Err(e);
        },
    };
    let secrets = match patch_named_refs("secret", &manifest.secrets, &hashes.secrets, builtins) {
        Ok(v) => v,
        Err(e) => {
            return Err(e);
        },
    };
    Ok(Manifest { schemas, modules, workflows, effects, secrets, ..manifest })
}

/// The definitions outside the reserved space, in order.
pub open spec fn own_defs(entries: Seq<(String, AirNode)>, n: nat) -> Seq<NodeTree>
    decreases n,
{
    if n == 0 || n > entries.len() {
        Seq::empty()
    } else {
        let before = own_defs(entries, (n - 1) as nat);
        if is_sys(entries[n - 1].1.name@) {
            before
        } else {
            before.push(entries[n - 1].1@)
        }
    }
}

fn pick_own(defs: &NameMap<AirNode>) -> (r: Vec<AirNode>)
    ensures
        nodes_view(r@) == own_defs(defs.list(), defs.list().len()),
{
    let entries = defs.entries();
    let mut out: Vec<AirNode> = Vec::new();
    let mut i: usize = 0;
    assert(nodes_view(out@) =~= Seq::empty());
    while i < entries.len()
        invariant
            i <= entries@.len(),
            nodes_view(out@) == own_defs(entries@, i as nat),
        decreases entries@.len() - i,
    {
        if !is_sys_name(entries[i].1.name.as_str()) {
            let ghost sofar = nodes_view(out@);
            out.push(entries[i].1.copied());
            assert(nodes_view(out@) =~= sofar.push(entries@[i as int].1@));
        }
        i += 1;
    }
    out
}

/// The digests of the definitions outside the reserved space.
pub open spec fn own_hashes(m: NameMap<AirNode>, kind: NodeKind) -> Result<
    Map<Seq<char>, Seq<char>>,
    Seq<char>,
> {
    let d = own_defs(m.list(), m.list().len());
    hashes_of(true, kind, d, d.len())
}

/// Whether `e` says that two definitions of one kind share a name.
pub open spec fn is_conflict(m: NameMap<AirNode>, kind: NodeKind, e: KernelError) -> bool {
    match own_hashes(m, kind) {
        Ok(_) => false,
        Err(t) => is_manifest_error(e, t),
    }
}

/// The digests under which the definitions of a loaded manifest are stored.
pub open spec fn are_stored_hashes(h: StoredHashes, loaded: LoadedManifest) -> bool {
    &&& own_hashes(loaded.schemas, NodeKind::Schema) == Ok::<Map<Seq<char>, Seq<char>>, Seq<char>>(
        deep(h.schemas.map()),
    )
    &&& own_hashes(loaded.modules, NodeKind::Module) == Ok::<Map<Seq<char>, Seq<char>>, Seq<char>>(
        deep(h.modules.map()),
    )
    &&& own_hashes(loaded.workflows, NodeKind::Workflow) == Ok::<Map<Seq<char>, Seq<char>>, Seq<char>>(
        deep(h.workflows.map()),
    )
    &&& own_hashes(loaded.effects, NodeKind::Effect) == Ok::<Map<Seq<char>, Seq<char>>, Seq<char>>(
        deep(h.effects.map()),
    )
    &&& deep(h.secrets.map()) == Map::<Seq<char>, Seq<char>>::empty()
}

/// The definitions of a loaded manifest that are not built in, by kind, in the order in which they
/// are stored.
pub open spec fn own_lists(loaded: LoadedManifest) -> Seq<Seq<NodeTree>> {
    seq![
        own_defs(loaded.schemas.list(), loaded.schemas.list().len()),
        own_defs(loaded.modules.list(), loaded.modules.list().len()),
        own_defs(loaded.workflows.list(), loaded.workflows.list().len()),
        own_defs(loaded.effects.list(), loaded.effects.list().len()),
    ]
}

/// What a store holds after the first `n` lists of definitions have been put into it.
pub open spec fn all_stored(
    before: Map<Seq<u8>, NodeTree>,
    lists: Seq<Seq<NodeTree>>,
    n: nat,
) -> Map<Seq<u8>, NodeTree>
    decreases n,
{
    if n == 0 {
        before
    } else {
        nodes_stored(
            all_stored(before, lists, (n - 1) as nat),
            lists[n - 1],
            lists[n - 1].len(),
        )
    }
}

/// Whether storing lists of definitions stopped at one that the store did not take.
pub open spec fn defs_stopped<S: Store<AirNode>>(
    e: KernelError,
    before: S,
    lists: Seq<Seq<NodeTree>>,
) -> bool {
    exists|i: nat, mid: S|
        i < lists.len() && mid.nodes() == all_stored(before.nodes(), lists, i)
            && #[trigger] writing_stopped(e, mid, lists[i as int])
}

/// Whether a manifest is a loaded one with the digests of its definitions.
pub open spec fn is_storable(m: Manifest, loaded: LoadedManifest, builtins: Builtins) -> bool {
    exists|h: StoredHashes| #[trigger]
        are_stored_hashes(h, loaded) && manifest_patched(loaded.manifest@, h, builtins) == Ok::<
            ManifestView,
            Seq<char>,
        >(m@)
}

/// Whether the definitions of a loaded manifest could not be stored, or do not agree with it.
pub open spec fn defs_refused<S: Store<AirNode>>(
    e: KernelError,
    before: S,
    loaded: LoadedManifest,
    builtins: Builtins,
) -> bool {
    ||| defs_stopped(e, before, own_lists(loaded))
    ||| is_conflict(loaded.schemas, NodeKind::Schema, e)
    ||| is_conflict(loaded.modules, NodeKind::Module, e)
    ||| is_conflict(loaded.workflows, NodeKind::Workflow, e)
    ||| is_conflict(loaded.effects, NodeKind::Effect, e)
    ||| exists|h: StoredHashes| #[trigger]
        are_stored_hashes(h, loaded) && match manifest_patched(loaded.manifest@, h, builtins) {
            Ok(_) => false,
            Err(t) => is_manifest_error(e, t),
        }
}

/// The node that holds a manifest.
pub open spec fn manifest_node(bytes: Seq<u8>) -> NodeTree {
    NodeTree { kind: NodeKind::Manifest, name: ""@, binding_id: ""@, bytes }
}

/// What storing a manifest comes to, once its definitions are there: it is written, and stored
/// under the digest of its bytes.
pub open spec fn manifest_kept<S: Store<AirNode>, C: ManifestCodec>(
    r: Result<ContentHash, KernelError>,
    mid: S,
    after: S,
    codec: &C,
    manifest: Manifest,
) -> bool {
    exists|told: Result<Vec<u8>, String>| #[trigger]
        call_ensures(C::encode, (codec, &manifest), told) && match told {
            Err(t) => r is Err && (r->Err_0 matches KernelError::Store(StoreError::Cbor(m)) && m
                == t) && after.nodes() == mid.nodes(),
            Ok(b) => match r {
                Ok(h) => node_put(
                    mid.nodes(),
                    after.nodes(),
                    Ok(b@),
                    manifest_node(b@),
                    h@,
                ),
                Err(e) => after.nodes() == mid.nodes() && (e matches KernelError::Store(why)
                    && write_fails::<AirNode, S>(mid, manifest_node(b@), why)),
            },
        }
}

/// Stores a loaded manifest: its definitions, except the built-in ones, and then the manifest with
/// their digests, whose own digest is returned. Manifests with secrets are refused.
pub fn store_loaded_manifest<S: Store<AirNode>, C: ManifestCodec>(
    store: &mut S,
    loaded: &LoadedManifest,
    codec: &C,
    builtins: &Builtins,
) -> (r: Result<ContentHash, KernelError>)
    ensures
        final(store).blobs() == old(store).blobs(),
        loaded.manifest.secrets@.len() > 0 ==> r is Err && is_manifest_error(
            r->Err_0,
            "store_loaded_manifest does not yet support manifests with defsecret references"@,
        ) && final(store).nodes() == old(store).nodes(),
        loaded.manifest.secrets@.len() == 0 ==> {
            ||| r is Err && defs_refused(r->Err_0, *old(store), *loaded, *builtins)
            ||| exists|m: Manifest, mid: S|
                is_storable(m, *loaded, *builtins) && mid.nodes() == all_stored(
                    old(store).nodes(),
                    own_lists(*loaded),
                    4,
                ) && #[trigger] manifest_kept(r, mid, *final(store), codec, m)
        },
{
    let manifest = match store_definitions(store, loaded, builtins) {
        Ok(m) => m,
        Err(e) => {
            return Err(e);
        },
    };
    let ghost mid = *store;
    assert(is_storable(manifest, *loaded, *builtins));
    let written = codec.encode(&manifest);
    let ghost told = written;
    assert(call_ensures(C::encode, (codec, &manifest), told));
    let bytes = match written {
        Ok(b) => b,
        Err(t) => {
            let r = Err(KernelError::Store(StoreError::Cbor(t)));
            assert(manifest_kept(r, mid, *store, codec, manifest));
            return r;
        },
    };
    let node = AirNode {
        kind: NodeKind::Manifest,
        name: "".to_owned(),
        binding_id: "".to_owned(),
        bytes,
    };
    assert(node@ == manifest_node(bytes@));
    let r = match store.put_node(&node) {
        Ok(h) => Ok(h),
        Err(e) => {
            assert(write_fails::<AirNode, S>(mid, node@, e));
            Err(KernelError::Store(e))
        },
    };
    assert(manifest_kept(r, mid, *store, codec, manifest));
    r
}

/// Stores the definitions of a loaded manifest, except the built-in ones, and returns the manifest
/// with their digests.
fn store_definitions<S: Store<AirNode>>(
    store: &mut S,
    loaded: &LoadedManifest,
    builtins: &Builtins,
) -> (r: Result<Manifest, KernelError>)
    ensures
        final(store).blobs() == old(store).blobs(),
        loaded.manifest.secrets@.len() > 0 ==> r is Err && is_manifest_error(
            r->Err_0,
            "store_loaded_manifest does not yet support manifests with defsecret references"@,
        ) && final(store).nodes() == old(store).nodes(),
        r matches Ok(m) ==> {
            &&& is_storable(m, *loaded, *builtins)
            &&& loaded.manifest.secrets@.len() == 0
            &&& final(store).nodes() == all_stored(old(store).nodes(), own_lists(*loaded), 4)
        },
        r is Err && loaded.manifest.secrets@.len() == 0 ==> defs_refused(
            r->Err_0,
            *old(store),
            *loaded,
            *builtins,
        ),
{
    if loaded.manifest.secrets.len() > 0 {
        return Err(
            KernelError::Manifest(
                "store_loaded_manifest does not yet support manifests with defsecret references".to_owned(),
            ),
        );
    }
    let ghost lists = own_lists(*loaded);
    let ghost first = *store;
    proof {
        reveal_with_fuel(all_stored, 5);
    }
    let schemas = match write_kind(store, true, NodeKind::Schema, &pick_own(&loaded.schemas)) {
        Ok(h) => h,
        Err(e) => {
            assert(writing_stopped(e, first, lists[0]) ==> defs_stopped(e, first, lists));
            return Err(e);
        },
    };
    let ghost mid = *store;
    let modules = match write_kind(store, true, NodeKind::Module, &pick_own(&loaded.modules)) {
        Ok(h) => h,
        Err(e) => {
            assert(writing_stopped(e, mid, lists[1]) ==> defs_stopped(e, first, lists));
            return Err(e);
        },
    };
    let ghost mid = *store;
    let workflows = match write_kind(
        store,
        true,
        NodeKind::Workflow,
        &pick_own(&loaded.workflows),
    ) {
        Ok(h) => h,
        Err(e) => {
            assert(writing_stopped(e, mid, lists[2]) ==> defs_stopped(e, first, lists));
            return Err(e);
        },
    };
    let ghost mid = *store;
    let effects = match write_kind(store, true, NodeKind::Effect, &pick_own(&loaded.effects)) {
        Ok(h) => h,
        Err(e) => {
            assert(writing_stopped(e, mid, lists[3]) ==> defs_stopped(e, first, lists));
            return Err(e);
        },
    };
    let hashes = StoredHashes { schemas, modules, workflows, effects, secrets: NameMap::new() };
    assert(deep(hashes.secrets.map()) =~= Map::empty());
    assert(are_stored_hashes(hashes, *loaded));
    patch_manifest_refs(loaded.manifest.copied(), &hashes, builtins)
}

/// No digest of a definition is that of other content.
pub open spec fn digests_tell_apart(before: Map<Seq<u8>, NodeTree>, nodes: Seq<NodeTree>) -> bool {
    &&& forall|i: int|
        0 <= i < nodes.len() && before.contains_key(sha256((#[trigger] nodes[i]).bytes))
            ==> before[sha256(nodes[i].bytes)] == nodes[i]
    &&& forall|i: int, j: int|
        0 <= i < nodes.len() && 0 <= j < nodes.len() && sha256((#[trigger] nodes[i]).bytes)
            == sha256((#[trigger] nodes[j]).bytes) ==> nodes[i] == nodes[j]
}

/// A definition that has been stored is in the store under the digest that was noted for its name,
/// and a reference to that name with that digest reads it from there, provided that the name is
/// not built in and that no digest is that of other content.
pub proof fn lemma_stored_definition_is_found(
    before: Map<Seq<u8>, NodeTree>,
    kind: NodeKind,
    nodes: Seq<NodeTree>,
    hashes: Map<Seq<char>, Seq<char>>,
    builtins: Builtins,
    i: int,
)
    requires
        hashes_of(true, kind, nodes, nodes.len()) == Ok::<Map<Seq<char>, Seq<char>>, Seq<char>>(
            hashes,
        ),
        0 <= i < nodes.len(),
        sha256(nodes[i].bytes).len() == 32,
        digests_tell_apart(before, nodes),
        !is_sys(nodes[i].name),
        !is_builtin(builtins.schemas@, nodes[i].name),
        !is_builtin(builtins.modules@, nodes[i].name),
        !is_builtin(builtins.ops@, nodes[i].name),
    ensures
        ({
            let node = nodes[i];
            let after = nodes_stored(before, nodes, nodes.len());
            &&& hashes.contains_key(node.name)
            &&& load_step((node.name, hashes[node.name]), kind, builtins) == LoadStep::Read(
                sha256(node.bytes),
            )
            &&& after.contains_key(sha256(node.bytes))
            &&& after[sha256(node.bytes)] == node
        }),
{
    lemma_noted(kind, nodes, i, nodes.len());
    lemma_stored(before, nodes, i, nodes.len());
    lemma_hash_text_reads_back(sha256(nodes[i].bytes));
}

proof fn lemma_noted(kind: NodeKind, nodes: Seq<NodeTree>, i: int, n: nat)
    requires
        0 <= i < n <= nodes.len(),
        hashes_of(true, kind, nodes, n) is Ok,
    ensures
        hashes_of(true, kind, nodes, n)->Ok_0.contains_key(nodes[i].name),
        hashes_of(true, kind, nodes, n)->Ok_0[nodes[i].name] == hash_text(sha256(nodes[i].bytes)),
    decreases n,
{
    if i < n - 1 {
        lemma_noted(kind, nodes, i, (n - 1) as nat);
    }
}

proof fn lemma_stored(before: Map<Seq<u8>, NodeTree>, nodes: Seq<NodeTree>, i: int, n: nat)
    requires
        0 <= i < nodes.len(),
        n <= nodes.len(),
        digests_tell_apart(before, nodes),
    ensures
        i < n ==> nodes_stored(before, nodes, n).contains_key(sha256(nodes[i].bytes)),
        nodes_stored(before, nodes, n).contains_key(sha256(nodes[i].bytes)) ==> nodes_stored(
            before,
            nodes,
            n,
        )[sha256(nodes[i].bytes)] == nodes[i],
    decreases n,
{
    if n > 0 {
        lemma_stored(before, nodes, i, (n - 1) as nat);
    }
}

} // verus!
