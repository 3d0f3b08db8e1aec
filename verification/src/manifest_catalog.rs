//! Loading the definitions that a manifest refers to.
use vstd::prelude::*;

use crate::air::{builtin_index, find_builtin, is_builtin, is_sys, is_sys_name, refs_view, AirNode,
    Builtins, Manifest, ManifestView, NamedRef, NodeKind, NodeTree, RefView, CURRENT_AIR_VERSION};
use crate::bytes::bytes_eq;
use crate::cbor::{cbor_parsed, decode_cbor, CborTree, CborValue};
use crate::governance::nodes_view;
use crate::hash::{hex_bytes, ContentHash};
use crate::names::{deep, lemma_deep_insert, NameMap};
use crate::store::{read_fails, EntryKind, Store, StoreError, StoreFault, StoreNode, StoreResult};
use crate::text::{last_index, parse_u64, parsed_u64, split_last, str_eq, trim, trimmed};

pub mod json_refs;
pub mod laws;

verus! {

/// A definition with its digest.
#[derive(Debug)]
pub struct CatalogEntry {
    pub hash: ContentHash,
    pub node: AirNode,
}

/// The model of an entry: digest and definition.
pub type EntryView = (Seq<u8>, NodeTree);

impl View for CatalogEntry {
    type V = EntryView;

    open spec fn view(&self) -> EntryView {
        (self.hash@, self.node@)
    }
}

/// A manifest with the definitions it refers to, and its secrets in order.
#[derive(Debug)]
pub struct Catalog {
    pub manifest: Manifest,
    pub nodes: NameMap<CatalogEntry>,
    pub resolved_secrets: Vec<AirNode>,
}

/// A secret by name and version.
#[derive(Debug)]
pub struct SecretRef {
    pub alias: String,
    pub version: u64,
}

/// Whether a CBOR value is a map with the text key `air_version`.
pub open spec fn declares_version(t: CborTree) -> bool {
    t matches CborTree::Mapping(entries) && exists|i: int|
        0 <= i < entries.len() && (#[trigger] entries[i]).0 == CborTree::Text("air_version"@)
}

pub fn has_air_version_field(value: &CborValue) -> (r: bool)
    ensures
        r == declares_version(value@),
{
    match value {
        CborValue::Mapping(entries) => {
            proof {
                crate::cbor::lemma_map_tree(*value);
            }
            let ghost t = value@->Mapping_0;
            let mut i: usize = 0;
            while i < entries.len()
                invariant
                    i <= entries@.len(),
                    t == crate::cbor::entry_trees(entries@),
                    value@ == CborTree::Mapping(t),
                    forall|k: int|
                        0 <= k < i ==> (#[trigger] t[k]).0 != CborTree::Text("air_version"@),
                decreases entries@.len() - i,
            {
                assert(t[i as int].0 == entries@[i as int].0@);
                if let CborValue::Text(s) = &entries[i].0 {
                    if str_eq(s.as_str(), "air_version") {
                        return true;
                    }
                }
                i += 1;
            }
            false
        },
        _ => false,
    }
}

/// Whether the kernel runs manifests of this version.
pub fn ensure_air_version(manifest: &Manifest) -> (r: StoreResult<()>)
    ensures
        match r {
            Ok(_) => manifest.air_version@ == CURRENT_AIR_VERSION@,
            Err(e) => manifest.air_version@ != CURRENT_AIR_VERSION@ && e@
                == (StoreFault::UnsupportedAirVersion {
                found: manifest.air_version@,
                supported: CURRENT_AIR_VERSION@,
            }),
        },
{
    if str_eq(manifest.air_version.as_str(), CURRENT_AIR_VERSION) {
        Ok(())
    } else {
        Err(
            StoreError::UnsupportedAirVersion {
                found: manifest.air_version.clone(),
                supported: CURRENT_AIR_VERSION.to_owned(),
            },
        )
    }
}

/// What a reference asks for: a built-in definition, a refusal, or a read from the store.
pub enum LoadStep {
    Take(Seq<u8>, NodeTree),
    Refuse(StoreFault),
    Read(Seq<u8>),
}

/// The digest that a reference holds.
pub open spec fn ref_digest(r: RefView) -> Seq<u8> {
    hex_bytes(r.1.skip(7))
}

/// What a reference of a given kind asks for.
pub open spec fn load_step(r: RefView, kind: NodeKind, builtins: Builtins) -> LoadStep {
    let reserved = LoadStep::Refuse(
        StoreFault::ReservedSysName { kind: kind.name(), name: r.0 },
    );
    let fixed = |items: Seq<crate::air::Builtin>|
        {
            let b = items[builtin_index(items, r.0)];
            if ref_digest(r) != b.hash@ {
                LoadStep::Refuse(
                    StoreFault::HashMismatch {
                        kind: EntryKind::Node,
                        expected: b.hash@,
                        actual: ref_digest(r),
                    },
                )
            } else {
                LoadStep::Take(b.hash@, b.node@)
            }
        };
    if is_sys(r.0) && kind != NodeKind::Schema && kind != NodeKind::Op && kind != NodeKind::Module {
        reserved
    } else if kind == NodeKind::Schema && is_builtin(builtins.schemas@, r.0) {
        fixed(builtins.schemas@)
    } else if kind == NodeKind::Module && is_builtin(builtins.modules@, r.0) {
        let b = builtins.modules@[builtin_index(builtins.modules@, r.0)];
        if r.1 == b.hash_ref@ {
            LoadStep::Take(b.hash@, b.node@)
        } else {
            LoadStep::Read(ref_digest(r))
        }
    } else if kind == NodeKind::Op && is_builtin(builtins.ops@, r.0) {
        fixed(builtins.ops@)
    } else if is_sys(r.0) {
        reserved
    } else {
        LoadStep::Read(ref_digest(r))
    }
}

/// What a reference asks for.
#[derive(Debug)]
pub enum LoadChoice {
    Take(CatalogEntry),
    Read(ContentHash),
}

fn parse_ref(r: &NamedRef) -> (h: ContentHash)
    ensures
        h@ == ref_digest(r@),
{
    match ContentHash::from_hex_str(r.hash.as_str()) {
        Ok(h) => h,
        Err(_) => ContentHash::from_array([0u8; 32]),
    }
}

/// Takes a built-in definition, if the reference holds its digest.
fn take_fixed(reference: &NamedRef, builtin: &crate::air::Builtin) -> (r: StoreResult<LoadChoice>)
    ensures
        match r {
            Ok(LoadChoice::Take(e)) => ref_digest(reference@) == builtin.hash@ && e@ == (
                builtin.hash@,
                builtin.node@,
            ),
            Ok(_) => false,
            Err(e) => ref_digest(reference@) != builtin.hash@ && e@ == (StoreFault::HashMismatch {
                kind: EntryKind::Node,
                expected: builtin.hash@,
                actual: ref_digest(reference@),
            }),
        },
{
    let actual = parse_ref(reference);
    if !bytes_eq(actual.as_bytes(), builtin.hash.as_bytes()) {
        Err(
            StoreError::HashMismatch {
                kind: EntryKind::Node,
                expected: builtin.hash,
                actual,
            },
        )
    } else {
        Ok(
            LoadChoice::Take(
                CatalogEntry { hash: builtin.hash, node: builtin.node.copied() },
            ),
        )
    }
}

/// Decides what a reference of a given kind asks for.
pub fn choose_load(reference: &NamedRef, kind: NodeKind, builtins: &Builtins) -> (r: StoreResult<
    LoadChoice,
>)
    ensures
        match (r, load_step(reference@, kind, *builtins)) {
            (Ok(LoadChoice::Take(e)), LoadStep::Take(h, n)) => e@ == (h, n),
            (Ok(LoadChoice::Read(a)), LoadStep::Read(h)) => a@ == h,
            (Err(e), LoadStep::Refuse(t)) => e@ == t,
            _ => false,
        },
{
    let name = reference.name.as_str();
    let sys = is_sys_name(name);
    if sys && kind != NodeKind::Schema && kind != NodeKind::Op && kind != NodeKind::Module {
        return Err(
            StoreError::ReservedSysName { kind: kind.label(), name: reference.name.clone() },
        );
    }
    if kind == NodeKind::Schema {
        if let Some(b) = find_builtin(&builtins.schemas, name) {
            return take_fixed(reference, b);
        }
    }
    if kind == NodeKind::Module {
        if let Some(b) = find_builtin(&builtins.modules, name) {
            if str_eq(reference.hash.as_str(), b.hash_ref.as_str()) {
                return Ok(
                    LoadChoice::Take(
                        CatalogEntry { hash: b.hash, node: b.node.copied() },
                    ),
                );
            }
            return Ok(LoadChoice::Read(parse_ref(reference)));
        }
    }
    if kind == NodeKind::Op {
        if let Some(b) = find_builtin(&builtins.ops, name) {
            return take_fixed(reference, b);
        }
    }
    if sys {
        return Err(
            StoreError::ReservedSysName { kind: kind.label(), name: reference.name.clone() },
        );
    }
    Ok(LoadChoice::Read(parse_ref(reference)))
}

/// The entry for a definition that the store gave, if it is of the right kind.
pub fn accept_node(reference: &NamedRef, kind: NodeKind, hash: ContentHash, node: AirNode) -> (r:
    StoreResult<CatalogEntry>)
    ensures
        match r {
            Ok(e) => node.kind == kind && e@ == (hash@, node@),
            Err(e) => node.kind != kind && e@ == (StoreFault::NodeKindMismatch {
                name: reference.name@,
                expected: kind.name(),
            }),
        },
{
    if !kind.matches(&node) {
        return Err(
            StoreError::NodeKindMismatch { name: reference.name.clone(), expected: kind.label() },
        );
    }
    Ok(CatalogEntry { hash, node })
}

/// The definitions that the first `n` references add to `before`, where `stored` holds the nodes
/// of the store; nothing where one of them cannot be had.
pub open spec fn catalogued(
    before: Map<Seq<char>, EntryView>,
    refs: Seq<RefView>,
    kind: NodeKind,
    builtins: Builtins,
    stored: Map<Seq<u8>, NodeTree>,
    n: nat,
) -> Option<Map<Seq<char>, EntryView>>
    decreases n,
{
    if n == 0 || n > refs.len() {
        Some(before)
    } else {
        match catalogued(before, refs, kind, builtins, stored, (n - 1) as nat) {
            None => None,
            Some(m) => match load_step(refs[n - 1], kind, builtins) {
                LoadStep::Take(h, node) => Some(m.insert(refs[n - 1].0, (h, node))),
                LoadStep::Refuse(_) => None,
                LoadStep::Read(h) => if stored.contains_key(h) && stored[h].kind == kind {
                    Some(m.insert(refs[n - 1].0, (h, stored[h])))
                } else {
                    None
                },
            },
        }
    }
}

/// Whether `e` is what came of reading a definition: what the store says, or that the definition
/// is of another kind.
pub open spec fn read_refused<S: Store<AirNode>>(
    store: S,
    name: Seq<char>,
    h: Seq<u8>,
    kind: NodeKind,
    e: StoreFault,
) -> bool {
    ||| exists|why: StoreError| #[trigger] read_fails::<AirNode, S>(store, h, why) && why@ == e
    ||| store.nodes().contains_key(h) && store.nodes()[h].kind != kind && e
        == (StoreFault::NodeKindMismatch { name, expected: kind.name() })
}

/// Whether `e` is a fault of loading the references: the refusal of the first one that cannot be
/// had, or what came of reading it from the store.
pub open spec fn load_failed<S: Store<AirNode>>(
    before: Map<Seq<char>, EntryView>,
    refs: Seq<RefView>,
    kind: NodeKind,
    builtins: Builtins,
    store: S,
    e: StoreFault,
) -> bool {
    exists|k: nat|
        k < refs.len() && #[trigger] catalogued(before, refs, kind, builtins, store.nodes(), k)
            is Some && match load_step(refs[k as int], kind, builtins) {
            LoadStep::Take(_, _) => false,
            LoadStep::Refuse(t) => e == t,
            LoadStep::Read(h) => read_refused(store, refs[k as int].0, h, kind, e),
        }
}

/// Loads the definitions that references of one kind point to.
pub fn load_refs<S: Store<AirNode>>(
    store: &S,
    refs: &Vec<NamedRef>,
    kind: NodeKind,
    builtins: &Builtins,
    nodes: &mut NameMap<CatalogEntry>,
) -> (r: StoreResult<()>)
    ensures
        match r {
            Ok(_) => catalogued(
                deep(old(nodes).map()),
                refs_view(refs@),
                kind,
                *builtins,
                store.nodes(),
                refs@.len(),
            ) == Some(deep(final(nodes).map())),
            Err(e) => load_failed(
                deep(old(nodes).map()),
                refs_view(refs@),
                kind,
                *builtins,
                *store,
                e@,
            ),
        },
{
    let ghost before = deep(nodes.map());
    let ghost view = refs_view(refs@);
    let ghost stored = store.nodes();
    let mut i: usize = 0;
    while i < refs.len()
        invariant
            i <= refs@.len(),
            view == refs_view(refs@),
            stored == store.nodes(),
            before == deep(old(nodes).map()),
            catalogued(before, view, kind, *builtins, stored, i as nat) == Some(deep(nodes.map())),
        decreases refs@.len() - i,
    {
        assert(view[i as int] == refs@[i as int]@);
        let ghost here = catalogued(before, view, kind, *builtins, stored, i as nat);
        let entry = match choose_load(&refs[i], kind, builtins) {
            Err(e) => {
                assert(here is Some);
                return Err(e);
            },
            Ok(LoadChoice::Take(entry)) => entry,
            Ok(LoadChoice::Read(hash)) => {
                let node = match store.get_node(hash) {
                    Ok(n) => n,
                    Err(e) => {
                        assert(here is Some);
                        assert(read_fails::<AirNode, S>(*store, hash@, e));
                        return Err(e);
                    },
                };
                match accept_node(&refs[i], kind, hash, node) {
                    Ok(entry) => entry,
                    Err(e) => {
                        assert(here is Some);
                        return Err(e);
                    },
                }
            },
        };
        proof {
            lemma_deep_insert(nodes.map(), refs@[i as int].name@, entry);
        }
        nodes.insert(refs[i].name.clone(), entry);
        i += 1;
    }
    Ok(())
}

/// The alias and the version in the name of a secret.
pub open spec fn secret_name(name: Seq<char>) -> Result<(Seq<char>, u64), StoreFault> {
    let at = last_index(name, '@');
    if at < 0 {
        Err(StoreFault::InvalidSecretName { name, reason: "missing @version suffix"@ })
    } else {
        match parsed_u64(name.skip(at + 1)) {
            Err(_) => Err(
                StoreFault::InvalidSecretName { name, reason: "version is not a positive integer"@ },
            ),
            Ok(v) => if v < 1 {
                Err(
                    StoreFault::InvalidSecretVersion {
                        alias: name.take(at),
                        version: v as u64,
                        context: "defsecret name"@,
                    },
                )
            } else {
                Ok((name.take(at), v as u64))
            },
        }
    }
}

/// Splits the name of a secret into alias and version.
pub fn parse_secret_name(name: &str) -> (r: StoreResult<(String, u64)>)
    ensures
        match (r, secret_name(name@)) {
            (Ok((a, v)), Ok((b, w))) => a@ == b && v == w,
            (Err(e), Err(t)) => e@ == t,
            _ => false,
        },
{
    match split_last(name, '@') {
        None => Err(
            StoreError::InvalidSecretName {
                name: name.to_owned(),
                reason: "missing @version suffix".to_owned(),
            },
        ),
        Some((alias, version)) => match parse_u64(version) {
            Err(_) => Err(
                StoreError::InvalidSecretName {
                    name: name.to_owned(),
                    reason: "version is not a positive integer".to_owned(),
                },
            ),
            Ok(v) => if v < 1 {
                Err(
                    StoreError::InvalidSecretVersion {
                        alias: alias.to_owned(),
                        version: v,
                        context: "defsecret name".to_owned(),
                    },
                )
            } else {
                Ok((alias.to_owned(), v))
            },
        },
    }
}

/// The secrets that the first `n` references name, in order.
pub open spec fn secrets_found(
    refs: Seq<RefView>,
    nodes: Map<Seq<char>, EntryView>,
    n: nat,
) -> Result<Seq<NodeTree>, StoreFault>
    decreases n,
{
    if n == 0 || n > refs.len() {
        Ok(Seq::empty())
    } else {
        match secrets_found(refs, nodes, (n - 1) as nat) {
            Err(e) => Err(e),
            Ok(found) => {
                let name = refs[n - 1].0;
                if !nodes.contains_key(name) {
                    Err(
                        StoreFault::UnknownSecret {
                            alias: name,
                            version: 0,
                            context: "defsecret not loaded"@,
                        },
                    )
                } else if nodes[name].1.kind != NodeKind::Secret {
                    Err(
                        StoreFault::NodeKindMismatch { name, expected: NodeKind::Secret.name() },
                    )
                } else {
                    match secret_name(nodes[name].1.name) {
                        Err(e) => Err(e),
                        Ok(_) => Ok(found.push(nodes[name].1)),
                    }
                }
            },
        }
    }
}

proof fn lemma_secrets_found_fault(
    refs: Seq<RefView>,
    nodes: Map<Seq<char>, EntryView>,
    k: nat,
    n: nat,
)
    requires
        k <= n <= refs.len(),
        secrets_found(refs, nodes, k) is Err,
    ensures
        secrets_found(refs, nodes, n) == secrets_found(refs, nodes, k),
    decreases n,
{
    if k < n {
        lemma_secrets_found_fault(refs, nodes, k, (n - 1) as nat);
    }
}

/// The secrets of a manifest, out of the loaded definitions.
pub fn resolve_secrets(manifest: &Manifest, nodes: &NameMap<CatalogEntry>) -> (r: StoreResult<
    Vec<AirNode>,
>)
    ensures
        match (
            r,
            secrets_found(manifest@.secrets, deep(nodes.map()), manifest@.secrets.len()),
        ) {
            (Ok(v), Ok(t)) => nodes_view(v@) == t,
            (Err(e), Err(t)) => e@ == t,
            _ => false,
        },
{
    let refs = &manifest.secrets;
    let ghost view = refs_view(refs@);
    let ghost loaded = deep(nodes.map());
    let mut out: Vec<AirNode> = Vec::new();
    let mut i: usize = 0;
    assert(nodes_view(out@) =~= Seq::empty());
    while i < refs.len()
        invariant
            i <= refs@.len(),
            view == refs_view(refs@),
            view == manifest@.secrets,
            loaded == deep(nodes.map()),
            secrets_found(view, loaded, i as nat) == Ok::<Seq<NodeTree>, StoreFault>(
                nodes_view(out@),
            ),
        decreases refs@.len() - i,
    {
        let named = &refs[i];
        assert(view[i as int] == named@);
        let entry = match nodes.get(named.name.as_str()) {
            Some(e) => e,
            None => {
                proof {
                    lemma_secrets_found_fault(view, loaded, (i + 1) as nat, view.len());
                }
                return Err(
                    StoreError::UnknownSecret {
                        alias: named.name.clone(),
                        version: 0,
                        context: "defsecret not loaded".to_owned(),
                    },
                );
            },
        };
        if entry.node.kind != NodeKind::Secret {
            proof {
                lemma_secrets_found_fault(view, loaded, (i + 1) as nat, view.len());
            }
            return Err(
                StoreError::NodeKindMismatch {
                    name: named.name.clone(),
                    expected: NodeKind::Secret.label(),
                },
            );
        }
        match parse_secret_name(entry.node.name.as_str()) {
            Ok(_) => {},
            Err(e) => {
                proof {
                    lemma_secrets_found_fault(view, loaded, (i + 1) as nat, view.len());
                }
                return Err(e);
            },
        }
        let ghost sofar = nodes_view(out@);
        out.push(entry.node.copied());
        assert(nodes_view(out@) =~= sofar.push(entry.node@));
        i += 1;
    }
    Ok(out)
}

/// The keys of the first `n` secrets: alias and version. Each has a binding, and no key occurs
/// twice.
pub open spec fn secret_keys(secrets: Seq<NodeTree>, n: nat) -> Result<
    Seq<(Seq<char>, u64)>,
    StoreFault,
>
    decreases n,
{
    if n == 0 || n > secrets.len() {
        Ok(Seq::empty())
    } else {
        match secret_keys(secrets, (n - 1) as nat) {
            Err(e) => Err(e),
            Ok(keys) => match secret_name(secrets[n - 1].name) {
                Err(e) => Err(e),
                Ok((alias, version)) => if trimmed(secrets[n - 1].binding_id).len() == 0 {
                    Err(StoreFault::SecretMissingBinding { alias, version })
                } else if keys.contains((alias, version)) {
                    Err(StoreFault::DuplicateSecret { alias, version })
                } else {
                    Ok(keys.push((alias, version)))
                },
            },
        }
    }
}

proof fn lemma_secret_keys_fault(secrets: Seq<NodeTree>, k: nat, n: nat)
    requires
        k <= n <= secrets.len(),
        secret_keys(secrets, k) is Err,
    ensures
        secret_keys(secrets, n) == secret_keys(secrets, k),
    decreases n,
{
    if k < n {
        lemma_secret_keys_fault(secrets, k, (n - 1) as nat);
    }
}

/// The models of keys.
pub open spec fn keys_view(keys: Seq<(String, u64)>) -> Seq<(Seq<char>, u64)> {
    Seq::new(keys.len(), |i: int| (keys[i].0@, keys[i].1))
}

fn find_key(keys: &Vec<(String, u64)>, alias: &str, version: u64) -> (r: Option<usize>)
    ensures
        match r {
            Some(i) => i < keys@.len() && keys_view(keys@)[i as int] == (alias@, version),
            None => !keys_view(keys@).contains((alias@, version)),
        },
{
    let mut i: usize = 0;
    while i < keys.len()
        invariant
            i <= keys@.len(),
            forall|k: int| 0 <= k < i ==> #[trigger] keys_view(keys@)[k] != (alias@, version),
        decreases keys@.len() - i,
    {
        if keys[i].1 == version && str_eq(keys[i].0.as_str(), alias) {
            return Some(i);
        }
        i += 1;
    }
    None
}

/// The keys of secrets, in order.
pub fn index_secret_decls(secrets: &Vec<AirNode>) -> (r: StoreResult<Vec<(String, u64)>>)
    ensures
        match (r, secret_keys(nodes_view(secrets@), secrets@.len())) {
            (Ok(k), Ok(t)) => keys_view(k@) == t && k@.len() == secrets@.len(),
            (Err(e), Err(t)) => e@ == t,
            _ => false,
        },
{
    let ghost view = nodes_view(secrets@);
    let mut keys: Vec<(String, u64)> = Vec::new();
    let mut i: usize = 0;
    assert(keys_view(keys@) =~= Seq::empty());
    while i < secrets.len()
        invariant
            i <= secrets@.len(),
            keys@.len() == i,
            view == nodes_view(secrets@),
            secret_keys(view, i as nat) == Ok::<Seq<(Seq<char>, u64)>, StoreFault>(
                keys_view(keys@),
            ),
        decreases secrets@.len() - i,
    {
        assert(view[i as int] == secrets@[i as int]@);
        let (alias, version) = match parse_secret_name(secrets[i].name.as_str()) {
            Ok(k) => k,
            Err(e) => {
                proof {
                    lemma_secret_keys_fault(view, (i + 1) as nat, view.len());
                }
                return Err(e);
            },
        };
        if trim(secrets[i].binding_id.as_str()).unicode_len() == 0 {
            proof {
                lemma_secret_keys_fault(view, (i + 1) as nat, view.len());
            }
            return Err(StoreError::SecretMissingBinding { alias, version });
        }
        if find_key(&keys, alias.as_str(), version).is_some() {
            proof {
                lemma_secret_keys_fault(view, (i + 1) as nat, view.len());
            }
            return Err(StoreError::DuplicateSecret { alias, version });
        }
        let ghost sofar = keys_view(keys@);
        let ghost key = (alias@, version);
        keys.push((alias, version));
        assert(keys_view(keys@) =~= sofar.push(key));
        i += 1;
    }
    Ok(keys)
}

/// The declaration that a secret reference means. `keys` are the keys of `secrets`.
pub fn resolve_secret<'a>(
    reference: &SecretRef,
    secrets: &'a Vec<AirNode>,
    keys: &Vec<(String, u64)>,
    context: &str,
) -> (r: StoreResult<&'a AirNode>)
    requires
        keys@.len() == secrets@.len(),
    ensures
        match r {
            Ok(d) => reference.version >= 1 && exists|i: int|
                0 <= i < secrets@.len() && #[trigger] keys_view(keys@)[i] == (
                    reference.alias@,
                    reference.version,
                ) && secrets@[i] == *d,
            Err(e) => if reference.version < 1 {
                e@ == (StoreFault::InvalidSecretVersion {
                    alias: reference.alias@,
                    version: reference.version,
                    context: context@,
                })
            } else {
                !keys_view(keys@).contains((reference.alias@, reference.version)) && e@
                    == (StoreFault::UnknownSecret {
                    alias: reference.alias@,
                    version: reference.version,
                    context: context@,
                })
            },
        },
{
    if reference.version < 1 {
        return Err(
            StoreError::InvalidSecretVersion {
                alias: reference.alias.clone(),
                version: reference.version,
                context: context.to_owned(),
            },
        );
    }
    match find_key(keys, reference.alias.as_str(), reference.version) {
        Some(i) => Ok(&secrets[i]),
        None => Err(
            StoreError::UnknownSecret {
                alias: reference.alias.clone(),
                version: reference.version,
                context: context.to_owned(),
            },
        ),
    }
}

/// Why the head of a manifest is refused: `bytes` do not hold a map with a version, `parsed` says
/// why they hold no manifest, or the version is another one.
pub open spec fn head_fault(bytes: Seq<u8>, parsed: Result<Manifest, String>) -> Option<StoreFault> {
    match cbor_parsed(bytes) {
        Err(m) => Some(StoreFault::Cbor(m)),
        Ok(t) => if !declares_version(t) {
            Some(StoreFault::MissingAirVersion { supported: CURRENT_AIR_VERSION@ })
        } else {
            match parsed {
                Err(m) => Some(StoreFault::Cbor(m@)),
                Ok(m) => if m.air_version@ != CURRENT_AIR_VERSION@ {
                    Some(
                        StoreFault::UnsupportedAirVersion {
                            found: m.air_version@,
                            supported: CURRENT_AIR_VERSION@,
                        },
                    )
                } else {
                    None
                },
            }
        },
    }
}

/// The definitions of a manifest in the order in which they are loaded: schemas, modules,
/// operations, secrets. `upto` says how many of the four are loaded.
pub open spec fn loaded_defs(
    m: ManifestView,
    builtins: Builtins,
    stored: Map<Seq<u8>, NodeTree>,
    upto: nat,
) -> Option<Map<Seq<char>, EntryView>>
    decreases upto,
{
    if upto == 0 || upto > 4 {
        Some(Map::empty())
    } else {
        match loaded_defs(m, builtins, stored, (upto - 1) as nat) {
            None => None,
            Some(before) => catalogued(
                before,
                list_at(m, upto - 1),
                kind_at(upto - 1),
                builtins,
                stored,
                list_at(m, upto - 1).len(),
            ),
        }
    }
}

pub open spec fn list_at(m: ManifestView, i: int) -> Seq<RefView> {
    if i == 0 {
        m.schemas
    } else if i == 1 {
        m.modules
    } else if i == 2 {
        m.ops
    } else {
        m.secrets
    }
}

pub open spec fn kind_at(i: int) -> NodeKind {
    if i == 0 {
        NodeKind::Schema
    } else if i == 1 {
        NodeKind::Module
    } else if i == 2 {
        NodeKind::Op
    } else {
        NodeKind::Secret
    }
}

/// Whether `e` is a fault of loading one of the four lists, the ones before it being loaded.
pub open spec fn defs_failed<S: Store<AirNode>>(
    m: ManifestView,
    builtins: Builtins,
    store: S,
    e: StoreFault,
) -> bool {
    exists|i: nat|
        i < 4 && match #[trigger] loaded_defs(m, builtins, store.nodes(), i) {
            None => false,
            Some(before) => load_failed(
                before,
                list_at(m, i as int),
                kind_at(i as int),
                builtins,
                store,
                e,
            ),
        }
}

/// Whether a catalog is that of a manifest: the bytes hold a manifest of the version at hand, its
/// definitions are all found, and so are its secrets, each under a name of its own.
pub open spec fn catalog_loaded(
    bytes: Seq<u8>,
    parsed: Result<Manifest, String>,
    builtins: Builtins,
    stored: Map<Seq<u8>, NodeTree>,
    c: Catalog,
) -> bool {
    &&& head_fault(bytes, parsed) is None
    &&& parsed matches Ok(manifest) && {
        let m = manifest@;
        &&& c.manifest@ == m
        &&& loaded_defs(m, builtins, stored, 4) == Some(deep(c.nodes.map()))
        &&& secrets_found(m.secrets, deep(c.nodes.map()), m.secrets.len()) == Ok::<
            Seq<NodeTree>,
            StoreFault,
        >(nodes_view(c.resolved_secrets@))
        &&& secret_keys(nodes_view(c.resolved_secrets@), c.resolved_secrets@.len()) is Ok
    }
}

/// Whether `e` is why a manifest has no catalog.
pub open spec fn catalog_failed<S: Store<AirNode>>(
    bytes: Seq<u8>,
    parsed: Result<Manifest, String>,
    builtins: Builtins,
    store: S,
    e: StoreFault,
) -> bool {
    match head_fault(bytes, parsed) {
        Some(t) => e == t,
        None => {
            let m = parsed->Ok_0@;
            ||| defs_failed(m, builtins, store, e)
            ||| match loaded_defs(m, builtins, store.nodes(), 4) {
                None => false,
                Some(defs) => match secrets_found(m.secrets, defs, m.secrets.len()) {
                    Err(t) => e == t,
                    Ok(found) => secret_keys(found, found.len()) == Err::<
                        Seq<(Seq<char>, u64)>,
                        StoreFault,
                    >(e),
                },
            }
        },
    }
}

/// Loads the catalog of a manifest. `parsed` is what `bytes` hold, read as a manifest.
pub fn load_manifest_from_bytes<S: Store<AirNode>>(
    store: &S,
    bytes: &[u8],
    parsed: Result<Manifest, String>,
    builtins: &Builtins,
) -> (r: StoreResult<Catalog>)
    ensures
        match r {
            Ok(c) => catalog_loaded(bytes@, parsed, *builtins, store.nodes(), c),
            Err(e) => catalog_failed(bytes@, parsed, *builtins, *store, e@),
        },
{
    let value = match decode_cbor(bytes) {
        Ok(v) => v,
        Err(e) => {
            return Err(StoreError::Cbor(e));
        },
    };
    if !has_air_version_field(&value) {
        return Err(StoreError::MissingAirVersion { supported: CURRENT_AIR_VERSION.to_owned() });
    }
    let manifest = match parsed {
        Ok(m) => m,
        Err(e) => {
            return Err(StoreError::Cbor(e));
        },
    };
    match ensure_air_version(&manifest) {
        Ok(_) => {},
        Err(e) => {
            return Err(e);
        },
    }
    let ghost m = manifest@;
    let ghost stored = store.nodes();
    let mut nodes: NameMap<CatalogEntry> = NameMap::new();
    proof {
        assert(deep(nodes.map()) =~= Map::empty());
        reveal_with_fuel(loaded_defs, 5);
    }
    match load_refs(store, &manifest.schemas, NodeKind::Schema, builtins, &mut nodes) {
        Ok(_) => {},
        Err(e) => {
            assert(loaded_defs(m, *builtins, stored, 0nat) is Some);
            return Err(e);
        },
    }
    match load_refs(store, &manifest.modules, NodeKind::Module, builtins, &mut nodes) {
        Ok(_) => {},
        Err(e) => {
            assert(loaded_defs(m, *builtins, stored, 1nat) is Some);
            return Err(e);
        },
    }
    match load_refs(store, &manifest.ops, NodeKind::Op, builtins, &mut nodes) {
        Ok(_) => {},
        Err(e) => {
            assert(loaded_defs(m, *builtins, stored, 2nat) is Some);
            return Err(e);
        },
    }
    match load_refs(store, &manifest.secrets, NodeKind::Secret, builtins, &mut nodes) {
        Ok(_) => {},
        Err(e) => {
            assert(loaded_defs(m, *builtins, stored, 3nat) is Some);
            return Err(e);
        },
    }
    let resolved_secrets = match resolve_secrets(&manifest, &nodes) {
        Ok(v) => v,
        Err(e) => {
            return Err(e);
        },
    };
    match index_secret_decls(&resolved_secrets) {
        Ok(_) => {},
        Err(e) => {
            return Err(e);
        },
    }
    Ok(Catalog { manifest, nodes, resolved_secrets })
}

/// A reference that the store need not be asked about is loaded, or refused, whatever the store
/// holds.
pub proof fn lemma_builtins_need_no_store(
    before: Map<Seq<char>, EntryView>,
    refs: Seq<RefView>,
    kind: NodeKind,
    builtins: Builtins,
    stored: Map<Seq<u8>, NodeTree>,
    other: Map<Seq<u8>, NodeTree>,
    n: nat,
)
    requires
        n <= refs.len(),
        forall|i: int| 0 <= i < n ==> !(load_step(#[trigger] refs[i], kind, builtins) is Read),
    ensures
        catalogued(before, refs, kind, builtins, stored, n) == catalogued(
            before,
            refs,
            kind,
            builtins,
            other,
            n,
        ),
    decreases n,
{
    if n > 0 {
        lemma_builtins_need_no_store(before, refs, kind, builtins, stored, other, (n - 1) as nat);
        assert(!(load_step(refs[n - 1], kind, builtins) is Read));
    }
}

/// A name in the reserved space that is not built in is never loaded.
pub proof fn lemma_reserved_names_are_refused(r: RefView, kind: NodeKind, builtins: Builtins)
    requires
        is_sys(r.0),
        !is_builtin(builtins.schemas@, r.0),
        !is_builtin(builtins.modules@, r.0),
        !is_builtin(builtins.ops@, r.0),
    ensures
        load_step(r, kind, builtins) == LoadStep::Refuse(
            StoreFault::ReservedSysName { kind: kind.name(), name: r.0 },
        ),
{
}

} // verus!
