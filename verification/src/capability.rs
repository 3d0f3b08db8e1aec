//! Capabilities: grants, and how effects are checked against them.
use vstd::prelude::*;

use crate::cbor::{cbor_printed, clone_bytes, encode_cbor, lemma_round_trips_writable, round_trips,
    safe_depth, CborTree, CborValue};
use crate::cbor_map::{lemma_text_map_round_trips, text_map, Field, FieldMap};
use crate::error::KernelError;
use crate::hash::{sha256, ContentHash};
use crate::names::NameMap;
use crate::text::str_eq;

pub mod expand;
pub mod laws;
pub mod params;

verus! {

/// The enforcer that allows everything.
pub const CAP_ALLOW_ALL_ENFORCER: &'static str = "sys/CapAllowAll@1";

pub const CAP_HTTP_ENFORCER: &'static str = "sys/CapEnforceHttpOut@1";

pub const CAP_LLM_ENFORCER: &'static str = "sys/CapEnforceLlmBasic@1";

pub const CAP_WORKSPACE_ENFORCER: &'static str = "sys/CapEnforceWorkspace@1";

/// A capability granted to modules and plans.
#[derive(Debug)]
pub struct CapabilityGrant {
    pub name: String,
    pub cap: String,
    pub params_cbor: Vec<u8>,
    pub expiry_ns: Option<u64>,
}

/// A grant with what is needed to enforce it.
#[derive(Debug)]
pub struct CapGrantResolution {
    pub grant: CapabilityGrant,
    pub cap_type: String,
    pub enforcer: String,
    pub grant_hash: [u8; 32],
}

/// The model of a grant.
pub struct GrantTree {
    pub name: Seq<char>,
    pub cap: Seq<char>,
    pub params: Seq<u8>,
    pub expiry_ns: Option<u64>,
}

/// The model of a resolved grant.
pub struct ResolvedTree {
    pub grant: GrantTree,
    pub cap_type: Seq<char>,
    pub enforcer: Seq<char>,
    pub grant_hash: Seq<u8>,
}

impl View for CapabilityGrant {
    type V = GrantTree;

    open spec fn view(&self) -> GrantTree {
        GrantTree {
            name: self.name@,
            cap: self.cap@,
            params: self.params_cbor@,
            expiry_ns: self.expiry_ns,
        }
    }
}

impl View for CapGrantResolution {
    type V = ResolvedTree;

    open spec fn view(&self) -> ResolvedTree {
        ResolvedTree {
            grant: self.grant@,
            cap_type: self.cap_type@,
            enforcer: self.enforcer@,
            grant_hash: self.grant_hash@,
        }
    }
}

impl CapGrantResolution {
    /// A copy.
    pub fn copied(&self) -> (r: Self)
        ensures
            r@ == self@,
    {
        CapGrantResolution {
            grant: CapabilityGrant {
                name: self.grant.name.clone(),
                cap: self.grant.cap.clone(),
                params_cbor: clone_bytes(&self.grant.params_cbor),
                expiry_ns: self.grant.expiry_ns,
            },
            cap_type: self.cap_type.clone(),
            enforcer: self.enforcer.clone(),
            grant_hash: self.grant_hash,
        }
    }
}

/// What decides whether a grant covers an effect.
pub trait CapabilityGate {
    fn resolve(&self, cap_name: &str, effect_kind: &str) -> Result<CapGrantResolution, KernelError>;
}

/// What the digest of a grant covers.
pub open spec fn grant_fields(grant: GrantTree, cap_type: Seq<char>) -> Seq<Field> {
    let base = seq![
        ("defcap_ref"@, CborTree::Text(grant.cap)),
        ("cap_type"@, CborTree::Text(cap_type)),
        ("params_cbor"@, CborTree::Bytes(grant.params)),
    ];
    match grant.expiry_ns {
        Some(t) => base.push(("expiry_ns"@, CborTree::Integer(t as i128))),
        None => base,
    }
}

/// The digest of a grant: that of the CBOR form of its capability, its type, its params and its
/// expiry.
pub open spec fn grant_digest(grant: GrantTree, cap_type: Seq<char>) -> Seq<u8> {
    sha256(cbor_printed(CborTree::Mapping(text_map(grant_fields(grant, cap_type))))->Ok_0)
}

/// The digest of a grant.
fn compute_grant_hash(grant: &CapabilityGrant, cap_type: &str) -> (r: [u8; 32])
    ensures
        r@ == grant_digest(grant@, cap_type@),
{
    let ghost fields = grant_fields(grant@, cap_type@);
    let mut f = FieldMap::new();
    f.put("defcap_ref", CborValue::Text(grant.cap.clone()));
    f.put("cap_type", CborValue::Text(cap_type.to_owned()));
    f.put("params_cbor", CborValue::Bytes(clone_bytes(&grant.params_cbor)));
    if let Some(t) = grant.expiry_ns {
        f.put("expiry_ns", CborValue::Integer(t as i128));
    }
    assert(f.fields@ =~= fields);
    let value = f.finish();
    proof {
        assert forall|k: int| 0 <= k < fields.len() implies round_trips(
            (#[trigger] fields[k]).1,
            99,
        ) by {
            assert(k == 0 || k == 1 || k == 2 || k == 3);
        }
        lemma_text_map_round_trips(fields, 99);
        lemma_round_trips_writable(value@, safe_depth());
    }
    match encode_cbor(&value) {
        Ok(bytes) => {
            let h = ContentHash::of_bytes(bytes.as_slice());
            *h.as_bytes()
        },
        Err(_) => {
            assert(false);
            [0u8;32]
        },
    }
}

/// The enforcer of a type of capability that names none of its own.
pub open spec fn default_enforcer(cap_type: Seq<char>) -> Seq<char> {
    if cap_type == "http.out"@ {
        CAP_HTTP_ENFORCER@
    } else if cap_type == "llm.basic"@ {
        CAP_LLM_ENFORCER@
    } else if cap_type == "workspace"@ {
        CAP_WORKSPACE_ENFORCER@
    } else {
        CAP_ALLOW_ALL_ENFORCER@
    }
}

fn default_enforcer_for_cap_type(cap_type: &str) -> (r: String)
    ensures
        r@ == default_enforcer(cap_type@),
{
    if str_eq(cap_type, "http.out") {
        CAP_HTTP_ENFORCER.to_owned()
    } else if str_eq(cap_type, "llm.basic") {
        CAP_LLM_ENFORCER.to_owned()
    } else if str_eq(cap_type, "workspace") {
        CAP_WORKSPACE_ENFORCER.to_owned()
    } else {
        CAP_ALLOW_ALL_ENFORCER.to_owned()
    }
}

/// A grant with the enforcer and the digest that belong to it.
pub open spec fn resolved_tree(grant: GrantTree, cap_type: Seq<char>, enforcer: Seq<char>) -> ResolvedTree {
    ResolvedTree { grant, cap_type, enforcer, grant_hash: grant_digest(grant, cap_type) }
}

pub(crate) fn resolve_with(grant: CapabilityGrant, cap_type: String, enforcer: String) -> (r:
    CapGrantResolution)
    ensures
        r@ == resolved_tree(grant@, cap_type@, enforcer@),
{
    let grant_hash = compute_grant_hash(&grant, cap_type.as_str());
    CapGrantResolution { grant, cap_type, enforcer, grant_hash }
}

/// The grants at hand, by name, and the type of capability that each effect needs.
#[derive(Debug)]
pub struct CapabilityResolver {
    grants: NameMap<CapGrantResolution>,
    effect_catalog: NameMap<String>,
}

pub open spec fn resolved_view(m: Map<Seq<char>, CapGrantResolution>) -> Map<
    Seq<char>,
    ResolvedTree,
> {
    m.map_values(|g: CapGrantResolution| g@)
}

pub open spec fn catalog_view(m: Map<Seq<char>, String>) -> Map<Seq<char>, Seq<char>> {
    m.map_values(|t: String| t@)
}

/// The table of grants that a list of grants with their types makes; of several with one name the
/// last.
pub open spec fn runtime_table(grants: Seq<(GrantTree, Seq<char>)>, n: nat) -> Map<
    Seq<char>,
    ResolvedTree,
>
    decreases n,
{
    if n == 0 || n > grants.len() {
        Map::empty()
    } else {
        let (grant, cap_type) = grants[n - 1];
        runtime_table(grants, (n - 1) as nat).insert(
            grant.name,
            resolved_tree(grant, cap_type, default_enforcer(cap_type)),
        )
    }
}

pub open spec fn runtime_view(grants: Seq<(CapabilityGrant, String)>) -> Seq<
    (GrantTree, Seq<char>),
> {
    Seq::new(grants.len(), |i: int| (grants[i].0@, grants[i].1@))
}

/// Why a grant does not cover an effect.
pub enum GrantRefusal {
    NotFound(Seq<char>),
    UnknownEffect(Seq<char>),
    TypeMismatch { grant: Seq<char>, expected: Seq<char>, found: Seq<char>, effect_kind: Seq<char> },
}

/// Whether an error is a refusal.
pub open spec fn is_refusal(e: KernelError, f: GrantRefusal) -> bool {
    match (e, f) {
        (KernelError::CapabilityGrantNotFound(a), GrantRefusal::NotFound(b)) => a@ == b,
        (KernelError::UnsupportedEffect(a), GrantRefusal::UnknownEffect(b)) => a@ == b,
        (
            KernelError::CapabilityTypeMismatch { grant, expected, found, effect_kind },
            GrantRefusal::TypeMismatch { grant: g, expected: x, found: y, effect_kind: k },
        ) => grant@ == g && expected@ == x && found@ == y && effect_kind@ == k,
        _ => false,
    }
}

/// The grant of a name, where its type is the one that an effect needs.
pub open spec fn resolution(
    grants: Map<Seq<char>, ResolvedTree>,
    catalog: Map<Seq<char>, Seq<char>>,
    cap_name: Seq<char>,
    effect_kind: Seq<char>,
) -> Result<ResolvedTree, GrantRefusal> {
    if !grants.contains_key(cap_name) {
        Err(GrantRefusal::NotFound(cap_name))
    } else if !catalog.contains_key(effect_kind) {
        Err(GrantRefusal::UnknownEffect(effect_kind))
    } else if grants[cap_name].cap_type != catalog[effect_kind] {
        Err(
            GrantRefusal::TypeMismatch {
                grant: cap_name,
                expected: catalog[effect_kind],
                found: grants[cap_name].cap_type,
                effect_kind,
            },
        )
    } else {
        Ok(grants[cap_name])
    }
}

/// Whether `name` is the only grant of a type.
pub open spec fn only_grant(
    grants: Map<Seq<char>, ResolvedTree>,
    cap_type: Seq<char>,
    name: Seq<char>,
) -> bool {
    &&& grants.contains_key(name)
    &&& grants[name].cap_type == cap_type
    &&& forall|other: Seq<char>| #[trigger]
        grants.contains_key(other) && grants[other].cap_type == cap_type ==> other == name
}

pub proof fn lemma_resolved_insert(
    m: Map<Seq<char>, CapGrantResolution>,
    name: Seq<char>,
    g: CapGrantResolution,
)
    ensures
        resolved_view(m.insert(name, g)) == resolved_view(m).insert(name, g@),
{
    assert(resolved_view(m.insert(name, g)) =~= resolved_view(m).insert(name, g@));
}

impl CapabilityResolver {
    /// The grants by name.
    pub closed spec fn table(&self) -> Map<Seq<char>, ResolvedTree> {
        resolved_view(self.grants.map())
    }

    /// The type of capability that each effect needs.
    pub closed spec fn catalog(&self) -> Map<Seq<char>, Seq<char>> {
        catalog_view(self.effect_catalog.map())
    }

    pub fn new(grants: NameMap<CapGrantResolution>, effect_catalog: NameMap<String>) -> (r: Self)
        ensures
            r.table() == resolved_view(grants.map()),
            r.catalog() == catalog_view(effect_catalog.map()),
    {
        CapabilityResolver { grants, effect_catalog }
    }

    /// A resolver for grants made at run time. Each gets the enforcer of its type.
    pub fn from_runtime_grants(
        grants: Vec<(CapabilityGrant, String)>,
        effect_catalog: NameMap<String>,
    ) -> (r: Self)
        ensures
            r.table() == runtime_table(runtime_view(grants@), grants@.len()),
            r.catalog() == catalog_view(effect_catalog.map()),
    {
        let ghost all = runtime_view(grants@);
        let mut table: NameMap<CapGrantResolution> = NameMap::new();
        let mut i: usize = 0;
        assert(resolved_view(table.map()) =~= runtime_table(all, 0));
        while i < grants.len()
            invariant
                i <= grants@.len(),
                all == runtime_view(grants@),
                resolved_view(table.map()) == runtime_table(all, i as nat),
            decreases grants@.len() - i,
        {
            let g = &grants[i].0;
            let cap_type = grants[i].1.as_str();
            let grant = CapabilityGrant {
                name: g.name.clone(),
                cap: g.cap.clone(),
                params_cbor: clone_bytes(&g.params_cbor),
                expiry_ns: g.expiry_ns,
            };
            assert(grant@ == all[i as int].0);
            assert(cap_type@ == all[i as int].1);
            let enforcer = default_enforcer_for_cap_type(cap_type);
            let resolved = resolve_with(grant, cap_type.to_owned(), enforcer);
            let ghost before = table.map();
            table.insert(g.name.clone(), resolved);
            proof {
                lemma_resolved_insert(before, g.name@, resolved);
            }
            i += 1;
        }
        CapabilityResolver::new(table, effect_catalog)
    }

    pub fn has_grant(&self, name: &str) -> (r: bool)
        ensures
            r == self.table().contains_key(name@),
    {
        self.grants.contains_key(name)
    }

    /// The grant of a name, where its type is the one that an effect needs.
    pub fn resolve(&self, cap_name: &str, effect_kind: &str) -> (r: Result<
        CapGrantResolution,
        KernelError,
    >)
        ensures
            match (r, resolution(self.table(), self.catalog(), cap_name@, effect_kind@)) {
                (Ok(g), Ok(t)) => g@ == t,
                (Err(e), Err(f)) => is_refusal(e, f),
                _ => false,
            },
    {
        let resolved = match self.grants.get(cap_name) {
            Some(g) => g,
            None => {
                return Err(KernelError::CapabilityGrantNotFound(cap_name.to_owned()));
            },
        };
        let expected = match self.effect_catalog.get(effect_kind) {
            Some(t) => t,
            None => {
                return Err(KernelError::UnsupportedEffect(effect_kind.to_owned()));
            },
        };
        if !str_eq(resolved.cap_type.as_str(), expected.as_str()) {
            return Err(
                KernelError::CapabilityTypeMismatch {
                    grant: cap_name.to_owned(),
                    expected: expected.clone(),
                    found: resolved.cap_type.clone(),
                    effect_kind: effect_kind.to_owned(),
                },
            );
        }
        Ok(resolved.copied())
    }

    /// The grant of a name.
    pub fn resolve_grant(&self, cap_name: &str) -> (r: Result<CapGrantResolution, KernelError>)
        ensures
            match r {
                Ok(g) => self.table().contains_key(cap_name@) && g@ == self.table()[cap_name@],
                Err(e) => !self.table().contains_key(cap_name@) && is_refusal(
                    e,
                    GrantRefusal::NotFound(cap_name@),
                ),
            },
    {
        match self.grants.get(cap_name) {
            Some(g) => Ok(g.copied()),
            None => Err(KernelError::CapabilityGrantNotFound(cap_name.to_owned())),
        }
    }

    /// The grant of the type that an effect needs, if there is exactly one.
    pub fn unique_grant_for_effect_kind(&self, effect_kind: &str) -> (r: Result<
        Option<CapGrantResolution>,
        KernelError,
    >)
        ensures
            match r {
                Err(e) => !self.catalog().contains_key(effect_kind@) && is_refusal(
                    e,
                    GrantRefusal::UnknownEffect(effect_kind@),
                ),
                Ok(Some(g)) => self.catalog().contains_key(effect_kind@) && exists|
                    name: Seq<char>,
                | #[trigger]
                    only_grant(self.table(), self.catalog()[effect_kind@], name) && g@
                        == self.table()[name],
                Ok(None) => self.catalog().contains_key(effect_kind@) && forall|
                    name: Seq<char>,
                | !#[trigger] only_grant(self.table(), self.catalog()[effect_kind@], name),
            },
    {
        let expected = match self.effect_catalog.get(effect_kind) {
            Some(t) => t.clone(),
            None => {
                return Err(KernelError::UnsupportedEffect(effect_kind.to_owned()));
            },
        };
        let ghost want = expected@;
        let entries = self.grants.entries();
        let ghost list = self.grants.list();
        proof {
            crate::names::lemma_entries_map(list);
        }
        let mut found: Option<usize> = None;
        let mut i: usize = 0;
        while i < entries.len()
            invariant
                i <= entries@.len(),
                entries@ == list,
                want == expected@,
                match found {
                    Some(k) => k < i && list[k as int].1.cap_type@ == want && forall|j: int|
                        0 <= j < i && j != k ==> (#[trigger] list[j]).1.cap_type@ != want,
                    None => forall|j: int| 0 <= j < i ==> (#[trigger] list[j]).1.cap_type@ != want,
                },
                crate::names::names_distinct(list),
                list == self.grants.list(),
                self.catalog().contains_key(effect_kind@),
                self.catalog()[effect_kind@] == want,
            decreases entries@.len() - i,
        {
            if str_eq(entries[i].1.cap_type.as_str(), expected.as_str()) {
                if let Some(k) = found {
                    proof {
                        let t = self.table();
                        let a = list[k as int];
                        let b = list[i as int];
                        lemma_listed(self.grants, k as int);
                        lemma_listed(self.grants, i as int);
                        assert forall|name: Seq<char>| !#[trigger] only_grant(t, want, name) by {
                            if only_grant(t, want, name) {
                                assert(t.contains_key(a.0@) && t.contains_key(b.0@));
                                assert(a.0@ == b.0@);
                            }
                        }
                    }
                    return Ok(None);
                }
                found = Some(i);
            }
            i += 1;
        }
        match found {
            None => {
                proof {
                    let t = self.table();
                    assert forall|name: Seq<char>| !#[trigger] only_grant(t, want, name) by {
                        if t.contains_key(name) {
                            lemma_table_entry(self.grants, name);
                        }
                    }
                }
                Ok(None)
            },
            Some(k) => {
                let g = entries[k].1.copied();
                proof {
                    let t = self.table();
                    let name = list[k as int].0@;
                    lemma_listed(self.grants, k as int);
                    assert forall|other: Seq<char>| #[trigger]
                        t.contains_key(other) && t[other].cap_type == want implies other == name by {
                        lemma_table_entry(self.grants, other);
                    }
                    assert(only_grant(t, want, name));
                }
                Ok(Some(g))
            },
        }
    }
}

/// An entry of the table is what the table has for its name.
proof fn lemma_listed(grants: NameMap<CapGrantResolution>, i: int)
    requires
        0 <= i < grants.list().len(),
        crate::names::names_distinct(grants.list()),
    ensures
        grants.map().contains_key(grants.list()[i].0@),
        grants.map()[grants.list()[i].0@] == grants.list()[i].1,
{
    let list = grants.list();
    let name = list[i].0@;
    crate::names::lemma_name_index(list, name);
    assert forall|k: int| 0 <= k < i implies (#[trigger] list[k]).0@ != name by {}
    crate::names::lemma_name_index_is(list, name, i);
}

/// What the table has for a name is one of its entries.
proof fn lemma_table_entry(grants: NameMap<CapGrantResolution>, name: Seq<char>)
    requires
        grants.map().contains_key(name),
    ensures
        exists|i: int|
            0 <= i < grants.list().len() && (#[trigger] grants.list()[i]).0@ == name
                && grants.list()[i].1 == grants.map()[name],
{
    let list = grants.list();
    crate::names::lemma_name_index(list, name);
    let i = crate::names::name_index(list, name);
    assert(list[i].0@ == name && list[i].1 == grants.map()[name]);
}

/// A grant covers an effect if and only if it is known by its name, the effect is known, and the
/// grant has the type that the effect needs. What is given is the grant of that name.
pub proof fn lemma_grant_covers_by_type(
    grants: Map<Seq<char>, ResolvedTree>,
    catalog: Map<Seq<char>, Seq<char>>,
    cap_name: Seq<char>,
    effect_kind: Seq<char>,
)
    ensures
        resolution(grants, catalog, cap_name, effect_kind) is Ok <==> grants.contains_key(cap_name)
            && catalog.contains_key(effect_kind) && grants[cap_name].cap_type
            == catalog[effect_kind],
        match resolution(grants, catalog, cap_name, effect_kind) {
            Ok(g) => g == grants[cap_name] && g.cap_type == catalog[effect_kind],
            Err(GrantRefusal::NotFound(n)) => n == cap_name && !grants.contains_key(n),
            Err(GrantRefusal::UnknownEffect(k)) => k == effect_kind && !catalog.contains_key(k)
                && grants.contains_key(cap_name),
            Err(GrantRefusal::TypeMismatch { grant, expected, found, effect_kind: k }) => grant
                == cap_name && expected == catalog[effect_kind] && found
                == grants[cap_name].cap_type && expected != found && k == effect_kind,
        },
{
}

/// The digest of a grant is that of a map of its capability, its type, its params and, where it has
/// one, its expiry, each under its own name; the name of the grant does not count.
pub proof fn lemma_digest_covers_the_grant(grant: GrantTree, cap_type: Seq<char>)
    ensures
        exists|fields: Seq<Field>|
            #![trigger text_map(fields)]
            {
                &&& grant_digest(grant, cap_type) == sha256(
                    cbor_printed(CborTree::Mapping(text_map(fields)))->Ok_0,
                )
                &&& forall|x: Field|
                    fields.contains(x) <==> {
                        ||| x == ("defcap_ref"@, CborTree::Text(grant.cap))
                        ||| x == ("cap_type"@, CborTree::Text(cap_type))
                        ||| x == ("params_cbor"@, CborTree::Bytes(grant.params))
                        ||| grant.expiry_ns matches Some(t) && x == (
                            "expiry_ns"@,
                            CborTree::Integer(t as i128),
                        )
                    }
            },
        forall|name: Seq<char>| #[trigger]
            grant_digest(GrantTree { name, ..grant }, cap_type) == grant_digest(grant, cap_type),
{
    let fields = grant_fields(grant, cap_type);
    assert(text_map(fields) == text_map(fields));
    assert(fields[0] == ("defcap_ref"@, CborTree::Text(grant.cap)));
    assert(fields[1] == ("cap_type"@, CborTree::Text(cap_type)));
    assert(fields[2] == ("params_cbor"@, CborTree::Bytes(grant.params)));
    if let Some(t) = grant.expiry_ns {
        assert(fields[3] == ("expiry_ns"@, CborTree::Integer(t as i128)));
    }
}

/// Of grants made at run time the last of a name counts. It is kept as it was granted, under its
/// type and with its digest; calls over the network, to models and to workspaces have enforcers of
/// their own, and every other type the one that allows all.
pub proof fn lemma_runtime_grant_is_kept(grants: Seq<(GrantTree, Seq<char>)>, k: int)
    requires
        0 <= k < grants.len(),
        forall|j: int| k < j < grants.len() ==> (#[trigger] grants[j]).0.name != grants[k].0.name,
    ensures
        ({
            let table = runtime_table(grants, grants.len());
            let cap_type = grants[k].1;
            let g = table[grants[k].0.name];
            &&& table.contains_key(grants[k].0.name)
            &&& g.grant == grants[k].0
            &&& g.cap_type == cap_type
            &&& g.grant_hash == grant_digest(grants[k].0, cap_type)
            &&& cap_type == "http.out"@ ==> g.enforcer == "sys/CapEnforceHttpOut@1"@
            &&& cap_type == "llm.basic"@ ==> g.enforcer == "sys/CapEnforceLlmBasic@1"@
            &&& cap_type == "workspace"@ ==> g.enforcer == "sys/CapEnforceWorkspace@1"@
            &&& cap_type != "http.out"@ && cap_type != "llm.basic"@ && cap_type != "workspace"@
                ==> g.enforcer == "sys/CapAllowAll@1"@
            &&& forall|name: Seq<char>| #[trigger]
                table.contains_key(name) ==> exists|i: int|
                    0 <= i < grants.len() && (#[trigger] grants[i]).0.name == name
        }),
{
    lemma_table_at(grants, k, grants.len());
    reveal_strlit("http.out");
    reveal_strlit("llm.basic");
    reveal_strlit("workspace");
    assert("http.out"@[0] == 'h' && "llm.basic"@[0] == 'l' && "workspace"@[0] == 'w');
}

proof fn lemma_table_at(grants: Seq<(GrantTree, Seq<char>)>, k: int, n: nat)
    requires
        0 <= k < grants.len(),
        n <= grants.len(),
        forall|j: int| k < j < grants.len() ==> (#[trigger] grants[j]).0.name != grants[k].0.name,
    ensures
        k < n ==> runtime_table(grants, n).contains_key(grants[k].0.name) && runtime_table(
            grants,
            n,
        )[grants[k].0.name] == resolved_tree(
            grants[k].0,
            grants[k].1,
            default_enforcer(grants[k].1),
        ),
        forall|name: Seq<char>| #[trigger]
            runtime_table(grants, n).contains_key(name) ==> exists|i: int|
                0 <= i < n && (#[trigger] grants[i]).0.name == name,
    decreases n,
{
    if n > 0 {
        lemma_table_at(grants, k, (n - 1) as nat);
        assert forall|name: Seq<char>| #[trigger]
            runtime_table(grants, n).contains_key(name) implies exists|i: int|
            0 <= i < n && (#[trigger] grants[i]).0.name == name by {
            if name == grants[n - 1].0.name {
                assert(grants[n - 1].0.name == name);
            } else {
                assert(runtime_table(grants, (n - 1) as nat).contains_key(name));
            }
        }
        if k < n - 1 {
            assert(grants[n - 1].0.name != grants[k].0.name);
        }
    }
}

} // verus!
