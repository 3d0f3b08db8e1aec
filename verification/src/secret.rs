//! Secrets: where effect params refer to them, how they are resolved, and who may use them.
use vstd::prelude::*;
use vstd::utf8::{decode_utf8, valid_utf8};

use crate::bytes::bytes_eq;
use crate::cbor::{cbor_parsed, cbor_printed, clone_bytes, decode_cbor, encode_cbor, entry_trees,
    get_text_entry, keys_of, lemma_array_tree, lemma_map_tree, text_entry, trees, writable,
    CborTree, CborValue};
use crate::effects::EffectSource;
use crate::error::KernelError;
use crate::hash::{hash_fault, hash_text, hex_bytes, is_hash_text, sha256, ContentHash, HashRef};
use crate::names::NameMap;
use crate::text::{copy_texts, decimal, decimal_text, has_text, join2, join3, join5, str_eq,
    texts};

pub mod laws;

verus! {

/// A secret with its value.
#[derive(Debug, PartialEq, Eq)]
pub struct ResolvedSecret {
    pub binding_id: String,
    pub value: Vec<u8>,
    pub digest: ContentHash,
}

/// The model of a resolved secret.
pub struct SecretView {
    pub binding_id: Seq<char>,
    pub value: Seq<u8>,
    pub digest: Seq<u8>,
}

impl View for ResolvedSecret {
    type V = SecretView;

    open spec fn view(&self) -> SecretView {
        SecretView { binding_id: self.binding_id@, value: self.value@, digest: self.digest@ }
    }
}

/// Why a secret could not be had.
#[derive(Debug, PartialEq, Eq)]
pub enum SecretResolverError {
    NotFound(String),
    DigestMismatch { binding_id: String, expected: String, found: String },
    InvalidExpectedDigest { binding_id: String, reason: String },
    InvalidParams { reason: String },
}

/// The model of such an error.
pub enum SecretFault {
    NotFound(Seq<char>),
    DigestMismatch { binding_id: Seq<char>, expected: Seq<char>, found: Seq<char> },
    InvalidExpectedDigest { binding_id: Seq<char>, reason: Seq<char> },
    InvalidParams { reason: Seq<char> },
}

impl View for SecretResolverError {
    type V = SecretFault;

    open spec fn view(&self) -> SecretFault {
        match *self {
            SecretResolverError::NotFound(b) => SecretFault::NotFound(b@),
            SecretResolverError::DigestMismatch { binding_id, expected, found } =>
                SecretFault::DigestMismatch {
                binding_id: binding_id@,
                expected: expected@,
                found: found@,
            },
            SecretResolverError::InvalidExpectedDigest { binding_id, reason } =>
                SecretFault::InvalidExpectedDigest { binding_id: binding_id@, reason: reason@ },
            SecretResolverError::InvalidParams { reason } => SecretFault::InvalidParams {
                reason: reason@,
            },
        }
    }
}

impl SecretFault {
    /// The wording of the error.
    pub open spec fn text(self) -> Seq<char> {
        match self {
            SecretFault::NotFound(b) => "secret binding '"@ + b + "' not found"@,
            SecretFault::DigestMismatch { binding_id, expected, found } =>
                "secret digest mismatch for binding '"@ + binding_id + "': expected "@ + expected
                + ", found "@ + found,
            SecretFault::InvalidExpectedDigest { binding_id, reason } =>
                "invalid expected digest for binding '"@ + binding_id + "': "@ + reason,
            SecretFault::InvalidParams { reason } =>
                "failed to parse effect params for secrets: "@ + reason,
        }
    }
}

impl SecretResolverError {
    pub fn message(&self) -> (r: String)
        ensures
            r@ == self@.text(),
    {
        match self {
            SecretResolverError::NotFound(b) => join3(
                "secret binding '",
                b.as_str(),
                "' not found",
            ),
            SecretResolverError::DigestMismatch { binding_id, expected, found } => {
                let head = join5(
                    "secret digest mismatch for binding '",
                    binding_id.as_str(),
                    "': expected ",
                    expected.as_str(),
                    ", found ",
                );
                join2(head.as_str(), found.as_str())
            },
            SecretResolverError::InvalidExpectedDigest { binding_id, reason } => {
                let head = join3(
                    "invalid expected digest for binding '",
                    binding_id.as_str(),
                    "': ",
                );
                join2(head.as_str(), reason.as_str())
            },
            SecretResolverError::InvalidParams { reason } => join2(
                "failed to parse effect params for secrets: ",
                reason.as_str(),
            ),
        }
    }
}

/// Who may use a secret. An empty list allows everyone.
#[derive(Debug)]
pub struct SecretPolicy {
    pub allowed_caps: Vec<String>,
    pub allowed_plans: Vec<String>,
}

/// A secret that a manifest declares.
#[derive(Debug)]
pub struct SecretDecl {
    pub alias: String,
    pub version: u64,
    pub binding_id: String,
    pub expected_digest: Option<HashRef>,
    pub policy: Option<SecretPolicy>,
}

/// The model of a declared secret; its policy as the allowed grants and the allowed plans.
pub struct DeclView {
    pub alias: Seq<char>,
    pub version: u64,
    pub binding_id: Seq<char>,
    pub expected_digest: Option<Seq<char>>,
    pub policy: Option<(Seq<Seq<char>>, Seq<Seq<char>>)>,
}

pub open spec fn digest_text(d: Option<HashRef>) -> Option<Seq<char>> {
    match d {
        Some(h) => Some(h@),
        None => None,
    }
}

impl View for SecretDecl {
    type V = DeclView;

    open spec fn view(&self) -> DeclView {
        DeclView {
            alias: self.alias@,
            version: self.version,
            binding_id: self.binding_id@,
            expected_digest: digest_text(self.expected_digest),
            policy: match self.policy {
                Some(p) => Some((texts(p.allowed_caps@), texts(p.allowed_plans@))),
                None => None,
            },
        }
    }
}

impl SecretDecl {
    /// A copy.
    pub fn copied(&self) -> (r: Self)
        ensures
            r@ == self@,
    {
        let policy = match &self.policy {
            Some(p) => Some(
                SecretPolicy {
                    allowed_caps: copy_texts(&p.allowed_caps),
                    allowed_plans: copy_texts(&p.allowed_plans),
                },
            ),
            None => None,
        };
        let expected_digest = match &self.expected_digest {
            Some(h) => Some(h.clone()),
            None => None,
        };
        SecretDecl {
            alias: self.alias.clone(),
            version: self.version,
            binding_id: self.binding_id.clone(),
            expected_digest,
            policy,
        }
    }
}

pub open spec fn decls_view(s: Seq<SecretDecl>) -> Seq<DeclView> {
    Seq::new(s.len(), |i: int| s[i]@)
}

/// The declaration of a version of a secret; of several the last.
pub open spec fn last_decl(s: Seq<DeclView>, alias: Seq<char>, version: u64) -> Option<DeclView>
    decreases s.len(),
{
    if s.len() == 0 {
        None
    } else if s.last().alias == alias && s.last().version == version {
        Some(s.last())
    } else {
        last_decl(s.drop_last(), alias, version)
    }
}

/// The secrets that a manifest declares.
#[derive(Debug)]
pub struct SecretCatalog {
    decls: Vec<SecretDecl>,
}

impl View for SecretCatalog {
    type V = Seq<DeclView>;

    closed spec fn view(&self) -> Seq<DeclView> {
        decls_view(self.decls@)
    }
}

impl SecretCatalog {
    pub fn new(decls: &[SecretDecl]) -> (r: Self)
        ensures
            r@ == decls_view(decls@),
    {
        let mut out: Vec<SecretDecl> = Vec::new();
        let mut i: usize = 0;
        while i < decls.len()
            invariant
                i <= decls@.len(),
                out@.len() == i,
                forall|k: int| 0 <= k < i ==> (#[trigger] out@[k])@ == decls@[k]@,
            decreases decls@.len() - i,
        {
            out.push(decls[i].copied());
            i += 1;
        }
        assert(decls_view(out@) =~= decls_view(decls@));
        SecretCatalog { decls: out }
    }

    pub fn is_empty(&self) -> (r: bool)
        ensures
            r == (self@.len() == 0),
    {
        self.decls.len() == 0
    }

    /// The declaration of a version of a secret; of several the last.
    pub fn lookup(&self, alias: &str, version: u64) -> (r: Option<&SecretDecl>)
        ensures
            match (r, last_decl(self@, alias@, version)) {
                (Some(d), Some(v)) => d@ == v,
                (None, None) => true,
                _ => false,
            },
    {
        let ghost s = self@;
        let mut i: usize = self.decls.len();
        assert(s.take(i as int) =~= s);
        while i > 0
            invariant
                i <= self.decls@.len(),
                s == decls_view(self.decls@),
                last_decl(s, alias@, version) == last_decl(s.take(i as int), alias@, version),
            decreases i,
        {
            assert(s.take(i as int).last() == self.decls@[i - 1]@);
            assert(s.take(i as int).drop_last() =~= s.take(i - 1));
            i -= 1;
            if str_eq(self.decls[i].alias.as_str(), alias) && self.decls[i].version == version {
                return Some(&self.decls[i]);
            }
        }
        None
    }
}

/// A source of secret values. A resolver answers by the binding and the expected digest.
pub trait SecretResolver {
    spec fn answer(&self, binding_id: Seq<char>, expected_digest: Option<Seq<char>>) -> Result<
        SecretView,
        SecretFault,
    >;

    fn resolve(&self, binding_id: &str, expected_digest: &Option<HashRef>) -> (r: Result<
        ResolvedSecret,
        SecretResolverError,
    >)
        ensures
            match (r, self.answer(binding_id@, digest_text(*expected_digest))) {
                (Ok(s), Ok(v)) => s@ == v,
                (Err(e), Err(f)) => e@ == f,
                _ => false,
            },
    ;
}

/// The models of a table of secret values.
pub open spec fn values_view(m: Map<Seq<char>, Vec<u8>>) -> Map<Seq<char>, Seq<u8>> {
    m.map_values(|v: Vec<u8>| v@)
}

/// What a table of secret values answers.
pub open spec fn table_answer(
    values: Map<Seq<char>, Seq<u8>>,
    binding_id: Seq<char>,
    expected_digest: Option<Seq<char>>,
) -> Result<SecretView, SecretFault> {
    if !values.contains_key(binding_id) {
        Err(SecretFault::NotFound(binding_id))
    } else {
        let value = values[binding_id];
        let found = SecretView { binding_id, value, digest: sha256(value) };
        match expected_digest {
            None => Ok(found),
            Some(e) => if !is_hash_text(e) {
                Err(SecretFault::InvalidExpectedDigest { binding_id, reason: hash_fault(e) })
            } else if hex_bytes(e.skip(7)) != sha256(value) {
                Err(
                    SecretFault::DigestMismatch {
                        binding_id,
                        expected: hash_text(hex_bytes(e.skip(7))),
                        found: hash_text(sha256(value)),
                    },
                )
            } else {
                Ok(found)
            },
        }
    }
}

/// A resolver with a fixed table.
pub struct MapSecretResolver {
    values: NameMap<Vec<u8>>,
}

impl MapSecretResolver {
    pub closed spec fn table(&self) -> Map<Seq<char>, Seq<u8>> {
        values_view(self.values.map())
    }

    pub fn new(values: NameMap<Vec<u8>>) -> (r: Self)
        ensures
            r.table() == values_view(values.map()),
    {
        MapSecretResolver { values }
    }
}

impl SecretResolver for MapSecretResolver {
    open spec fn answer(
        &self,
        binding_id: Seq<char>,
        expected_digest: Option<Seq<char>>,
    ) -> Result<SecretView, SecretFault> {
        table_answer(self.table(), binding_id, expected_digest)
    }

    fn resolve(&self, binding_id: &str, expected_digest: &Option<HashRef>) -> (r: Result<
        ResolvedSecret,
        SecretResolverError,
    >) {
        let value = match self.values.get(binding_id) {
            Some(v) => clone_bytes(v),
            None => {
                return Err(SecretResolverError::NotFound(binding_id.to_owned()));
            },
        };
        let digest = ContentHash::of_bytes(value.as_slice());
        if let Some(expected) = expected_digest {
            match ContentHash::from_hex_str(expected.as_str()) {
                Ok(h) => {
                    if !bytes_eq(h.as_bytes(), digest.as_bytes()) {
                        return Err(
                            SecretResolverError::DigestMismatch {
                                binding_id: binding_id.to_owned(),
                                expected: h.to_hex(),
                                found: digest.to_hex(),
                            },
                        );
                    }
                },
                Err(e) => {
                    return Err(
                        SecretResolverError::InvalidExpectedDigest {
                            binding_id: binding_id.to_owned(),
                            reason: e.message(),
                        },
                    );
                },
            }
        }
        Ok(ResolvedSecret { binding_id: binding_id.to_owned(), value, digest })
    }
}

/// What stands in for a secret: no value, and the digest that is expected or that of the name of
/// the binding.
pub open spec fn placeholder_answer(
    binding_id: Seq<char>,
    expected_digest: Option<Seq<char>>,
) -> Result<SecretView, SecretFault> {
    match expected_digest {
        None => Ok(
            SecretView {
                binding_id,
                value: Seq::empty(),
                digest: sha256(vstd::utf8::encode_utf8(binding_id)),
            },
        ),
        Some(e) => if is_hash_text(e) {
            Ok(SecretView { binding_id, value: Seq::empty(), digest: hex_bytes(e.skip(7)) })
        } else {
            Err(SecretFault::InvalidExpectedDigest { binding_id, reason: hash_fault(e) })
        },
    }
}

/// A resolver for shadow runs, where the secrets themselves are not at hand.
pub struct PlaceholderSecretResolver;

impl SecretResolver for PlaceholderSecretResolver {
    open spec fn answer(
        &self,
        binding_id: Seq<char>,
        expected_digest: Option<Seq<char>>,
    ) -> Result<SecretView, SecretFault> {
        placeholder_answer(binding_id, expected_digest)
    }

    fn resolve(&self, binding_id: &str, expected_digest: &Option<HashRef>) -> (r: Result<
        ResolvedSecret,
        SecretResolverError,
    >) {
        let digest = match expected_digest {
            Some(expected) => match ContentHash::from_hex_str(expected.as_str()) {
                Ok(h) => h,
                Err(e) => {
                    return Err(
                        SecretResolverError::InvalidExpectedDigest {
                            binding_id: binding_id.to_owned(),
                            reason: e.message(),
                        },
                    );
                },
            },
            None => ContentHash::of_bytes(binding_id.as_bytes()),
        };
        let value: Vec<u8> = Vec::new();
        assert(value@ =~= Seq::empty());
        Ok(ResolvedSecret { binding_id: binding_id.to_owned(), value, digest })
    }
}

/// A reference to a secret: its alias and its version.
pub type RefTo = (Seq<char>, u64);

/// The secret that a value refers to, where it is `{"secret": {"alias": .., "version": ..}}`. Of a
/// version outside the range of `u64` the low bits count.
pub open spec fn secret_at(t: CborTree) -> Option<RefTo> {
    match t {
        CborTree::Mapping(m) => if m.len() == 1 && m[0].0 == CborTree::Text("secret"@) {
            match m[0].1 {
                CborTree::Mapping(inner) => match (
                    text_entry(inner, "alias"@),
                    text_entry(inner, "version"@),
                ) {
                    (Some(CborTree::Text(alias)), Some(CborTree::Integer(v))) => Some(
                        (alias, #[verifier::truncate] (v as u64)),
                    ),
                    _ => None,
                },
                _ => None,
            }
        } else {
            None
        },
        _ => None,
    }
}

/// The secrets that a value refers to, in the order of the value.
pub open spec fn refs_in(t: CborTree) -> Seq<RefTo>
    decreases t, 0nat,
{
    match t {
        CborTree::Array(items) => refs_in_items(items, items.len()),
        CborTree::Mapping(entries) => {
            let own = match secret_at(t) {
                Some(x) => seq![x],
                None => Seq::empty(),
            };
            own + refs_in_entries(entries, entries.len())
        },
        _ => Seq::empty(),
    }
}

/// The secrets that the first `n` values refer to.
pub open spec fn refs_in_items(items: Seq<CborTree>, n: nat) -> Seq<RefTo>
    decreases items, n,
{
    if n == 0 || n > items.len() {
        Seq::empty()
    } else {
        refs_in_items(items, (n - 1) as nat) + refs_in(items[n - 1])
    }
}

/// The secrets that the values of the first `n` entries refer to.
pub open spec fn refs_in_entries(entries: Seq<(CborTree, CborTree)>, n: nat) -> Seq<RefTo>
    decreases entries, n,
{
    if n == 0 || n > entries.len() {
        Seq::empty()
    } else {
        refs_in_entries(entries, (n - 1) as nat) + refs_in(entries[n - 1].1)
    }
}

pub open spec fn found_refs(s: Seq<(String, u64)>) -> Seq<RefTo> {
    Seq::new(s.len(), |i: int| (s[i].0@, s[i].1))
}

/// The secret that a value refers to.
fn find_secret(value: &CborValue) -> (r: Option<(String, u64)>)
    ensures
        match (r, secret_at(value@)) {
            (Some(x), Some(y)) => x.0@ == y.0 && x.1 == y.1,
            (None, None) => true,
            _ => false,
        },
{
    if let CborValue::Mapping(m) = value {
        proof {
            lemma_map_tree(*value);
        }
        if m.len() == 1 {
            assert(entry_trees(m@)[0] == (m@[0].0@, m@[0].1@));
            if let (CborValue::Text(tag), CborValue::Mapping(inner)) = (&m[0].0, &m[0].1) {
                proof {
                    lemma_map_tree(m@[0].1);
                }
                if str_eq(tag.as_str(), "secret") {
                    if let (Some(CborValue::Text(alias)), Some(CborValue::Integer(v))) = (
                        get_text_entry(inner, "alias"),
                        get_text_entry(inner, "version"),
                    ) {
                        return Some((alias.clone(), #[verifier::truncate] (*v as u64)));
                    }
                }
            }
        }
    }
    None
}

/// Adds the secrets that a value refers to.
pub fn collect_secret_refs_value(value: &CborValue, refs: &mut Vec<(String, u64)>)
    ensures
        found_refs(final(refs)@) == found_refs(old(refs)@) + refs_in(value@),
    decreases value,
{
    let ghost start = found_refs(refs@);
    match value {
        CborValue::Array(items) => {
            proof {
                lemma_array_tree(*value);
            }
            let ghost all = trees(items@);
            let mut i: usize = 0;
            assert(start + Seq::empty() =~= start);
            while i < items.len()
                invariant
                    i <= items@.len(),
                    *value == CborValue::Array(*items),
                    all == trees(items@),
                    found_refs(refs@) == start + refs_in_items(all, i as nat),
                decreases items@.len() - i,
            {
                assert(value->Array_0@[i as int] == items@[i as int]);
                assert(all[i as int] == items@[i as int]@);
                let ghost done = refs_in_items(all, i as nat);
                collect_secret_refs_value(&items[i], refs);
                assert(start + done + refs_in(all[i as int]) =~= start + (done + refs_in(
                    all[i as int],
                )));
                i += 1;
            }
        },
        CborValue::Mapping(entries) => {
            proof {
                lemma_map_tree(*value);
            }
            let ghost all = entry_trees(entries@);
            let ghost own = match secret_at(value@) {
                Some(x) => seq![x],
                None => Seq::<RefTo>::empty(),
            };
            match find_secret(value) {
                Some(x) => {
                    let ghost before = refs@;
                    refs.push(x);
                    assert(found_refs(refs@) =~= found_refs(before) + own);
                },
                None => {
                    assert(found_refs(refs@) =~= start + own);
                },
            }
            let mut i: usize = 0;
            assert(start + own + Seq::empty() =~= start + own);
            while i < entries.len()
                invariant
                    i <= entries@.len(),
                    *value == CborValue::Mapping(*entries),
                    all == entry_trees(entries@),
                    found_refs(refs@) == start + own + refs_in_entries(all, i as nat),
                decreases entries@.len() - i,
            {
                assert(value->Mapping_0@[i as int] == entries@[i as int]);
                assert(all[i as int].1 == entries@[i as int].1@);
                let ghost done = refs_in_entries(all, i as nat);
                collect_secret_refs_value(&entries[i].1, refs);
                assert(start + own + done + refs_in(all[i as int].1) =~= start + own + (done
                    + refs_in(all[i as int].1)));
                i += 1;
            }
            assert(start + own + refs_in_entries(all, all.len()) =~= start + (own
                + refs_in_entries(all, all.len())));
        },
        _ => {
            assert(start + Seq::empty() =~= start);
        },
    }
}

/// The secrets that effect params refer to.
pub fn collect_secret_refs(params_cbor: &[u8]) -> (r: Result<
    Vec<(String, u64)>,
    SecretResolverError,
>)
    ensures
        match (r, cbor_parsed(params_cbor@)) {
            (Ok(refs), Ok(t)) => found_refs(refs@) == refs_in(t),
            (Err(e), Err(reason)) => e@ == (SecretFault::InvalidParams { reason }),
            _ => false,
        },
{
    match decode_cbor(params_cbor) {
        Err(reason) => Err(SecretResolverError::InvalidParams { reason }),
        Ok(value) => {
            let mut refs: Vec<(String, u64)> = Vec::new();
            collect_secret_refs_value(&value, &mut refs);
            assert(Seq::<RefTo>::empty() + refs_in(value@) =~= refs_in(value@));
            assert(found_refs(Seq::<(String, u64)>::empty()) =~= Seq::<RefTo>::empty());
            Ok(refs)
        },
    }
}

/// The name of a version of a secret.
pub open spec fn version_name(x: RefTo) -> Seq<char> {
    x.0 + "@"@ + decimal(x.1 as nat)
}

fn name_version(alias: &str, version: u64) -> (r: String)
    ensures
        r@ == version_name((alias@, version)),
{
    let v = decimal_text(version);
    join3(alias, "@", v.as_str())
}

/// What the resolver answers for a reference.
pub open spec fn looked_up<R: SecretResolver>(x: RefTo, decls: Seq<DeclView>, resolver: R) -> Result<
    SecretView,
    SecretFault,
> {
    match last_decl(decls, x.0, x.1) {
        None => Err(SecretFault::NotFound(version_name(x))),
        Some(d) => resolver.answer(d.binding_id, d.expected_digest),
    }
}

fn look_up<R: SecretResolver>(
    alias: &str,
    version: u64,
    catalog: &SecretCatalog,
    resolver: &R,
) -> (r: Result<ResolvedSecret, SecretResolverError>)
    ensures
        match (r, looked_up((alias@, version), catalog@, *resolver)) {
            (Ok(s), Ok(v)) => s@ == v,
            (Err(e), Err(f)) => e@ == f,
            _ => false,
        },
{
    match catalog.lookup(alias, version) {
        None => Err(SecretResolverError::NotFound(name_version(alias, version))),
        Some(d) => resolver.resolve(d.binding_id.as_str(), &d.expected_digest),
    }
}

/// The first of the first `n` references that cannot be resolved.
pub open spec fn first_unresolved<R: SecretResolver>(
    refs: Seq<RefTo>,
    decls: Seq<DeclView>,
    resolver: R,
    n: nat,
) -> Option<SecretFault>
    decreases n,
{
    if n == 0 || n > refs.len() {
        None
    } else {
        match first_unresolved(refs, decls, resolver, (n - 1) as nat) {
            Some(f) => Some(f),
            None => match looked_up(refs[n - 1], decls, resolver) {
                Err(f) => Some(f),
                Ok(_) => None,
            },
        }
    }
}

proof fn lemma_unresolved_stands<R: SecretResolver>(
    refs: Seq<RefTo>,
    decls: Seq<DeclView>,
    resolver: R,
    n: nat,
    k: nat,
)
    requires
        n <= k <= refs.len(),
        first_unresolved(refs, decls, resolver, n) is Some,
    ensures
        first_unresolved(refs, decls, resolver, k) == first_unresolved(refs, decls, resolver, n),
    decreases k,
{
    if n < k {
        lemma_unresolved_stands(refs, decls, resolver, n, (k - 1) as nat);
    }
}

/// Whether effect params pass: they can be read, and every secret that they refer to is declared
/// and can be resolved.
pub fn validate_secrets_in_params<R: SecretResolver>(
    params_cbor: &[u8],
    catalog: &SecretCatalog,
    resolver: &R,
) -> (r: Result<(), SecretResolverError>)
    ensures
        match cbor_parsed(params_cbor@) {
            Err(reason) => r matches Err(e) && e@ == (SecretFault::InvalidParams { reason }),
            Ok(t) => match (
                r,
                first_unresolved(refs_in(t), catalog@, *resolver, refs_in(t).len()),
            ) {
                (Ok(_), None) => true,
                (Err(e), Some(f)) => e@ == f,
                _ => false,
            },
        },
{
    let refs = match collect_secret_refs(params_cbor) {
        Ok(refs) => refs,
        Err(e) => {
            return Err(e);
        },
    };
    let ghost all = found_refs(refs@);
    let mut i: usize = 0;
    while i < refs.len()
        invariant
            i <= refs@.len(),
            all == found_refs(refs@),
            cbor_parsed(params_cbor@) matches Ok(t) && all == refs_in(t),
            first_unresolved(all, catalog@, *resolver, i as nat) is None,
        decreases refs@.len() - i,
    {
        assert(all[i as int] == (refs@[i as int].0@, refs@[i as int].1));
        match look_up(refs[i].0.as_str(), refs[i].1, catalog, resolver) {
            Ok(_) => {},
            Err(e) => {
                proof {
                    assert(first_unresolved(all, catalog@, *resolver, (i + 1) as nat) is Some);
                    lemma_unresolved_stands(
                        all,
                        catalog@,
                        *resolver,
                        (i + 1) as nat,
                        all.len(),
                    );
                }
                return Err(e);
            },
        }
        i += 1;
    }
    Ok(())
}

/// `std::str::from_utf8`: the text whose encoding the bytes are, if there is one.
#[verifier::external_body]
fn utf8_text(bytes: &[u8]) -> (r: Option<String>)
    ensures
        match r {
            Some(s) => valid_utf8(bytes@) && s@ == decode_utf8(bytes@),
            None => !valid_utf8(bytes@),
        },
{
    std::str::from_utf8(bytes).ok().map(|s| s.to_owned())
}

/// The literal that takes the place of a reference: text where the value is UTF-8, else bytes.
pub open spec fn secret_literal(value: Seq<u8>) -> CborTree {
    if valid_utf8(value) {
        CborTree::Text(decode_utf8(value))
    } else {
        CborTree::Bytes(value)
    }
}

/// A value with every reference to a secret replaced by the secret, or the first error.
pub open spec fn injected<R: SecretResolver>(t: CborTree, decls: Seq<DeclView>, resolver: R) -> Result<
    CborTree,
    SecretFault,
>
    decreases t, 0nat,
{
    match t {
        CborTree::Array(items) => match items_injected(items, decls, resolver, items.len()) {
            Ok(s) => Ok(CborTree::Array(s)),
            Err(f) => Err(f),
        },
        CborTree::Mapping(entries) => match secret_at(t) {
            Some(x) => match looked_up(x, decls, resolver) {
                Ok(s) => Ok(secret_literal(s.value)),
                Err(f) => Err(f),
            },
            None => match entries_injected(entries, decls, resolver, entries.len()) {
                Ok(s) => Ok(CborTree::Mapping(s)),
                Err(f) => Err(f),
            },
        },
        _ => Ok(t),
    }
}

pub open spec fn items_injected<R: SecretResolver>(
    items: Seq<CborTree>,
    decls: Seq<DeclView>,
    resolver: R,
    n: nat,
) -> Result<Seq<CborTree>, SecretFault>
    decreases items, n,
{
    if n == 0 || n > items.len() {
        Ok(Seq::empty())
    } else {
        match items_injected(items, decls, resolver, (n - 1) as nat) {
            Err(f) => Err(f),
            Ok(done) => match injected(items[n - 1], decls, resolver) {
                Err(f) => Err(f),
                Ok(t) => Ok(done.push(t)),
            },
        }
    }
}

pub open spec fn entries_injected<R: SecretResolver>(
    entries: Seq<(CborTree, CborTree)>,
    decls: Seq<DeclView>,
    resolver: R,
    n: nat,
) -> Result<Seq<(CborTree, CborTree)>, SecretFault>
    decreases entries, n,
{
    if n == 0 || n > entries.len() {
        Ok(Seq::empty())
    } else {
        match entries_injected(entries, decls, resolver, (n - 1) as nat) {
            Err(f) => Err(f),
            Ok(done) => match injected(entries[n - 1].1, decls, resolver) {
                Err(f) => Err(f),
                Ok(t) => Ok(done.push((entries[n - 1].0, t))),
            },
        }
    }
}

proof fn lemma_items_fault<R: SecretResolver>(
    items: Seq<CborTree>,
    decls: Seq<DeclView>,
    resolver: R,
    n: nat,
    k: nat,
)
    requires
        n <= k <= items.len(),
        items_injected(items, decls, resolver, n) is Err,
    ensures
        items_injected(items, decls, resolver, k) == items_injected(items, decls, resolver, n),
    decreases k,
{
    if n < k {
        lemma_items_fault(items, decls, resolver, n, (k - 1) as nat);
    }
}

proof fn lemma_entries_fault<R: SecretResolver>(
    entries: Seq<(CborTree, CborTree)>,
    decls: Seq<DeclView>,
    resolver: R,
    n: nat,
    k: nat,
)
    requires
        n <= k <= entries.len(),
        entries_injected(entries, decls, resolver, n) is Err,
    ensures
        entries_injected(entries, decls, resolver, k) == entries_injected(
            entries,
            decls,
            resolver,
            n,
        ),
    decreases k,
{
    if n < k {
        lemma_entries_fault(entries, decls, resolver, n, (k - 1) as nat);
    }
}

/// Replaces references to secrets by the secrets.
fn inject_in_value<R: SecretResolver>(
    value: &CborValue,
    catalog: &SecretCatalog,
    resolver: &R,
) -> (r: Result<CborValue, SecretResolverError>)
    ensures
        match (r, injected(value@, catalog@, *resolver)) {
            (Ok(v), Ok(t)) => v@ == t,
            (Err(e), Err(f)) => e@ == f,
            _ => false,
        },
    decreases value,
{
    match value {
        CborValue::Array(items) => {
            proof {
                lemma_array_tree(*value);
            }
            let ghost all = trees(items@);
            let mut out: Vec<CborValue> = Vec::new();
            let mut i: usize = 0;
            assert(trees(out@) =~= Seq::empty());
            while i < items.len()
                invariant
                    i <= items@.len(),
                    *value == CborValue::Array(*items),
                    value@ == CborTree::Array(all),
                    all == trees(items@),
                    items_injected(all, catalog@, *resolver, i as nat) == Ok::<_, SecretFault>(
                        trees(out@),
                    ),
                decreases items@.len() - i,
            {
                assert(value->Array_0@[i as int] == items@[i as int]);
                assert(all[i as int] == items@[i as int]@);
                match inject_in_value(&items[i], catalog, resolver) {
                    Ok(v) => {
                        let ghost before = out@;
                        out.push(v);
                        assert(trees(out@) =~= trees(before).push(v@));
                    },
                    Err(e) => {
                        proof {
                            assert(items_injected(all, catalog@, *resolver, (i + 1) as nat) is Err);
                            lemma_items_fault(
                                all,
                                catalog@,
                                *resolver,
                                (i + 1) as nat,
                                all.len(),
                            );
                        }
                        return Err(e);
                    },
                }
                i += 1;
            }
            let r = CborValue::Array(out);
            proof {
                lemma_array_tree(r);
            }
            Ok(r)
        },
        CborValue::Mapping(entries) => {
            if let Some((alias, version)) = find_secret(value) {
                return match look_up(alias.as_str(), version, catalog, resolver) {
                    Ok(s) => match utf8_text(s.value.as_slice()) {
                        Some(t) => Ok(CborValue::Text(t)),
                        None => Ok(CborValue::Bytes(s.value)),
                    },
                    Err(e) => Err(e),
                };
            }
            proof {
                lemma_map_tree(*value);
            }
            let ghost all = entry_trees(entries@);
            let mut out: Vec<(CborValue, CborValue)> = Vec::new();
            let mut i: usize = 0;
            assert(entry_trees(out@) =~= Seq::empty());
            while i < entries.len()
                invariant
                    i <= entries@.len(),
                    *value == CborValue::Mapping(*entries),
                    value@ == CborTree::Mapping(all),
                    secret_at(value@) is None,
                    all == entry_trees(entries@),
                    entries_injected(all, catalog@, *resolver, i as nat) == Ok::<_, SecretFault>(
                        entry_trees(out@),
                    ),
                decreases entries@.len() - i,
            {
                assert(value->Mapping_0@[i as int] == entries@[i as int]);
                assert(all[i as int] == (entries@[i as int].0@, entries@[i as int].1@));
                match inject_in_value(&entries[i].1, catalog, resolver) {
                    Ok(v) => {
                        let ghost before = out@;
                        let key = entries[i].0.copied();
                        out.push((key, v));
                        assert(entry_trees(out@) =~= entry_trees(before).push(
                            (all[i as int].0, v@),
                        ));
                    },
                    Err(e) => {
                        proof {
                            assert(entries_injected(
                                all,
                                catalog@,
                                *resolver,
                                (i + 1) as nat,
                            ) is Err);
                            lemma_entries_fault(
                                all,
                                catalog@,
                                *resolver,
                                (i + 1) as nat,
                                all.len(),
                            );
                        }
                        return Err(e);
                    },
                }
                i += 1;
            }
            let r = CborValue::Mapping(out);
            proof {
                lemma_map_tree(r);
            }
            Ok(r)
        },
        _ => Ok(value.copied()),
    }
}

proof fn lemma_injected_writable<R: SecretResolver>(
    t: CborTree,
    decls: Seq<DeclView>,
    resolver: R,
)
    requires
        writable(t),
        injected(t, decls, resolver) is Ok,
    ensures
        writable(injected(t, decls, resolver)->Ok_0),
    decreases t, 0nat,
{
    match t {
        CborTree::Array(items) => {
            lemma_items_writable(items, decls, resolver, items.len());
        },
        CborTree::Mapping(entries) => {
            if secret_at(t) is None {
                lemma_entries_writable(entries, decls, resolver, entries.len());
                let s = entries_injected(entries, decls, resolver, entries.len())->Ok_0;
                assert(keys_of(s) =~= keys_of(entries));
            }
        },
        _ => {},
    }
}

proof fn lemma_items_writable<R: SecretResolver>(
    items: Seq<CborTree>,
    decls: Seq<DeclView>,
    resolver: R,
    n: nat,
)
    requires
        n <= items.len(),
        forall|i: int| 0 <= i < items.len() ==> writable(#[trigger] items[i]),
        items_injected(items, decls, resolver, n) is Ok,
    ensures
        items_injected(items, decls, resolver, n)->Ok_0.len() == n,
        forall|i: int|
            0 <= i < n ==> writable(
                #[trigger] items_injected(items, decls, resolver, n)->Ok_0[i],
            ),
    decreases items, n,
{
    if n > 0 {
        lemma_items_writable(items, decls, resolver, (n - 1) as nat);
        lemma_injected_writable(items[n - 1], decls, resolver);
    }
}

proof fn lemma_entries_writable<R: SecretResolver>(
    entries: Seq<(CborTree, CborTree)>,
    decls: Seq<DeclView>,
    resolver: R,
    n: nat,
)
    requires
        n <= entries.len(),
        forall|i: int|
            0 <= i < entries.len() ==> writable((#[trigger] entries[i]).0) && writable(
                entries[i].1,
            ),
        entries_injected(entries, decls, resolver, n) is Ok,
    ensures
        entries_injected(entries, decls, resolver, n)->Ok_0.len() == n,
        forall|i: int|
            0 <= i < n ==> {
                let e = #[trigger] entries_injected(entries, decls, resolver, n)->Ok_0[i];
                e.0 == entries[i].0 && writable(e.0) && writable(e.1)
            },
    decreases entries, n,
{
    if n > 0 {
        lemma_entries_writable(entries, decls, resolver, (n - 1) as nat);
        lemma_injected_writable(entries[n - 1].1, decls, resolver);
    }
}

/// Effect params with every reference to a secret replaced by the secret, or the first error.
pub open spec fn params_injected<R: SecretResolver>(
    params: Seq<u8>,
    decls: Seq<DeclView>,
    resolver: R,
) -> Result<Seq<u8>, SecretFault> {
    match cbor_parsed(params) {
        Err(reason) => Err(SecretFault::InvalidParams { reason }),
        Ok(t) => match injected(t, decls, resolver) {
            Err(f) => Err(f),
            Ok(filled) => match cbor_printed(filled) {
                Ok(b) => Ok(b),
                Err(reason) => Err(SecretFault::InvalidParams { reason }),
            },
        },
    }
}

/// Effect params with every reference to a secret replaced by the secret.
pub fn inject_secrets_in_params<R: SecretResolver>(
    params_cbor: &[u8],
    catalog: &SecretCatalog,
    resolver: &R,
) -> (r: Result<Vec<u8>, SecretResolverError>)
    ensures
        match (r, params_injected(params_cbor@, catalog@, *resolver)) {
            (Ok(b), Ok(s)) => b@ == s,
            (Err(e), Err(f)) => e@ == f,
            _ => false,
        },
{
    let value = match decode_cbor(params_cbor) {
        Ok(v) => v,
        Err(reason) => {
            return Err(SecretResolverError::InvalidParams { reason });
        },
    };
    let filled = match inject_in_value(&value, catalog, resolver) {
        Ok(v) => v,
        Err(e) => {
            return Err(e);
        },
    };
    proof {
        lemma_injected_writable(value@, catalog@, *resolver);
    }
    match encode_cbor(&filled) {
        Ok(b) => Ok(b),
        Err(reason) => Err(SecretResolverError::InvalidParams { reason }),
    }
}

/// Whether a list that is empty or names `name` allows it.
pub open spec fn listed(names: Seq<Seq<char>>, name: Seq<char>) -> bool {
    names.len() == 0 || names.contains(name)
}

/// Why a use of a secret is denied.
pub open spec fn use_denied(
    x: RefTo,
    decls: Seq<DeclView>,
    origin: EffectSource,
    cap_name: Seq<char>,
) -> Option<Seq<char>> {
    match last_decl(decls, x.0, x.1) {
        None => None,
        Some(d) => match d.policy {
            None => None,
            Some((caps, plans)) => if !listed(caps, cap_name) {
                Some("cap grant '"@ + cap_name + "' not allowed"@)
            } else {
                match origin {
                    EffectSource::Plan { name } => if !listed(plans, name@) {
                        Some("plan '"@ + name@ + "' not allowed"@)
                    } else {
                        None
                    },
                    _ => None,
                }
            },
        },
    }
}

/// The first of the first `n` uses that is denied, and why.
pub open spec fn first_denied(
    refs: Seq<RefTo>,
    decls: Seq<DeclView>,
    origin: EffectSource,
    cap_name: Seq<char>,
    n: nat,
) -> Option<(RefTo, Seq<char>)>
    decreases n,
{
    if n == 0 || n > refs.len() {
        None
    } else {
        match first_denied(refs, decls, origin, cap_name, (n - 1) as nat) {
            Some(x) => Some(x),
            None => match use_denied(refs[n - 1], decls, origin, cap_name) {
                Some(reason) => Some((refs[n - 1], reason)),
                None => None,
            },
        }
    }
}

proof fn lemma_denied_stands(
    refs: Seq<RefTo>,
    decls: Seq<DeclView>,
    origin: EffectSource,
    cap_name: Seq<char>,
    n: nat,
    k: nat,
)
    requires
        n <= k <= refs.len(),
        first_denied(refs, decls, origin, cap_name, n) is Some,
    ensures
        first_denied(refs, decls, origin, cap_name, k) == first_denied(
            refs,
            decls,
            origin,
            cap_name,
            n,
        ),
    decreases k,
{
    if n < k {
        lemma_denied_stands(refs, decls, origin, cap_name, n, (k - 1) as nat);
    }
}

fn denied(decl: &SecretDecl, origin: &EffectSource, cap_name: &str) -> (r: Option<String>)
    ensures
        match (
            r,
            use_denied((decl.alias@, decl.version), seq![decl@], *origin, cap_name@),
        ) {
            (Some(a), Some(b)) => a@ == b,
            (None, None) => true,
            _ => false,
        },
{
    assert(seq![decl@].last() == decl@);
    if let Some(policy) = &decl.policy {
        if policy.allowed_caps.len() > 0 && !has_text(&policy.allowed_caps, cap_name) {
            return Some(join3("cap grant '", cap_name, "' not allowed"));
        }
        if let EffectSource::Plan { name } = origin {
            if policy.allowed_plans.len() > 0 && !has_text(&policy.allowed_plans, name.as_str()) {
                return Some(join3("plan '", name.as_str(), "' not allowed"));
            }
        }
    }
    None
}

/// Whether the policies of the secrets that effect params refer to allow the use.
pub fn enforce_secret_policy(
    params_cbor: &[u8],
    catalog: &SecretCatalog,
    origin: &EffectSource,
    cap_name: &str,
) -> (r: Result<(), KernelError>)
    ensures
        match cbor_parsed(params_cbor@) {
            Err(reason) => r matches Err(KernelError::SecretResolution(m)) && m@ == (
            SecretFault::InvalidParams { reason }).text(),
            Ok(t) => match first_denied(
                refs_in(t),
                catalog@,
                *origin,
                cap_name@,
                refs_in(t).len(),
            ) {
                None => r is Ok,
                Some((x, why)) => r matches Err(
                    KernelError::SecretPolicyDenied { alias, version, reason },
                ) && alias@ == x.0 && version == x.1 && reason@ == why,
            },
        },
{
    let refs = match collect_secret_refs(params_cbor) {
        Ok(refs) => refs,
        Err(e) => {
            return Err(KernelError::SecretResolution(e.message()));
        },
    };
    let ghost all = found_refs(refs@);
    let mut i: usize = 0;
    while i < refs.len()
        invariant
            i <= refs@.len(),
            all == found_refs(refs@),
            cbor_parsed(params_cbor@) matches Ok(t) && all == refs_in(t),
            first_denied(all, catalog@, *origin, cap_name@, i as nat) is None,
        decreases refs@.len() - i,
    {
        assert(all[i as int] == (refs@[i as int].0@, refs@[i as int].1));
        if let Some(decl) = catalog.lookup(refs[i].0.as_str(), refs[i].1) {
            proof {
                lemma_last_decl_is(catalog@, refs@[i as int].0@, refs@[i as int].1);
                assert(seq![decl@].last() == decl@);
            }
            if let Some(reason) = denied(decl, origin, cap_name) {
                proof {
                    lemma_denied_stands(
                        all,
                        catalog@,
                        *origin,
                        cap_name@,
                        (i + 1) as nat,
                        all.len(),
                    );
                }
                return Err(
                    KernelError::SecretPolicyDenied {
                        alias: refs[i].0.clone(),
                        version: refs[i].1,
                        reason,
                    },
                );
            }
        }
        i += 1;
    }
    Ok(())
}

proof fn lemma_last_decl_is(s: Seq<DeclView>, alias: Seq<char>, version: u64)
    ensures
        last_decl(s, alias, version) matches Some(d) ==> d.alias == alias && d.version == version,
    decreases s.len(),
{
    if s.len() > 0 {
        lemma_last_decl_is(s.drop_last(), alias, version);
    }
}

pub open spec fn all_resolve<R: SecretResolver>(
    refs: Seq<RefTo>,
    decls: Seq<DeclView>,
    resolver: R,
) -> bool {
    forall|i: int| 0 <= i < refs.len() ==> looked_up(#[trigger] refs[i], decls, resolver) is Ok
}

proof fn lemma_all_resolve<R: SecretResolver>(
    refs: Seq<RefTo>,
    decls: Seq<DeclView>,
    resolver: R,
    n: nat,
)
    requires
        n <= refs.len(),
        first_unresolved(refs, decls, resolver, n) is None,
    ensures
        forall|i: int| 0 <= i < n ==> looked_up(#[trigger] refs[i], decls, resolver) is Ok,
    decreases n,
{
    if n > 0 {
        lemma_all_resolve(refs, decls, resolver, (n - 1) as nat);
    }
}

proof fn lemma_resolve_parts<R: SecretResolver>(
    a: Seq<RefTo>,
    b: Seq<RefTo>,
    decls: Seq<DeclView>,
    resolver: R,
)
    requires
        all_resolve(a + b, decls, resolver),
    ensures
        all_resolve(a, decls, resolver),
        all_resolve(b, decls, resolver),
{
    let c = a + b;
    assert forall|i: int| 0 <= i < a.len() implies looked_up(
        #[trigger] a[i],
        decls,
        resolver,
    ) is Ok by {
        assert(c[i] == a[i]);
    }
    assert forall|i: int| 0 <= i < b.len() implies looked_up(
        #[trigger] b[i],
        decls,
        resolver,
    ) is Ok by {
        assert(c[a.len() + i] == b[i]);
    }
}

proof fn lemma_resolved_injects<R: SecretResolver>(
    t: CborTree,
    decls: Seq<DeclView>,
    resolver: R,
)
    requires
        all_resolve(refs_in(t), decls, resolver),
    ensures
        injected(t, decls, resolver) is Ok,
    decreases t, 0nat,
{
    match t {
        CborTree::Array(items) => {
            lemma_items_inject(items, decls, resolver, items.len());
        },
        CborTree::Mapping(entries) => {
            match secret_at(t) {
                Some(x) => {
                    assert(refs_in(t)[0] == x);
                },
                None => {
                    assert(refs_in(t) =~= refs_in_entries(entries, entries.len()));
                    lemma_entries_inject(entries, decls, resolver, entries.len());
                },
            }
        },
        _ => {},
    }
}

proof fn lemma_items_inject<R: SecretResolver>(
    items: Seq<CborTree>,
    decls: Seq<DeclView>,
    resolver: R,
    n: nat,
)
    requires
        n <= items.len(),
        all_resolve(refs_in_items(items, n), decls, resolver),
    ensures
        items_injected(items, decls, resolver, n) is Ok,
    decreases items, n,
{
    if n > 0 {
        lemma_resolve_parts(
            refs_in_items(items, (n - 1) as nat),
            refs_in(items[n - 1]),
            decls,
            resolver,
        );
        lemma_items_inject(items, decls, resolver, (n - 1) as nat);
        lemma_resolved_injects(items[n - 1], decls, resolver);
    }
}

proof fn lemma_entries_inject<R: SecretResolver>(
    entries: Seq<(CborTree, CborTree)>,
    decls: Seq<DeclView>,
    resolver: R,
    n: nat,
)
    requires
        n <= entries.len(),
        all_resolve(refs_in_entries(entries, n), decls, resolver),
    ensures
        entries_injected(entries, decls, resolver, n) is Ok,
    decreases entries, n,
{
    if n > 0 {
        lemma_resolve_parts(
            refs_in_entries(entries, (n - 1) as nat),
            refs_in(entries[n - 1].1),
            decls,
            resolver,
        );
        lemma_entries_inject(entries, decls, resolver, (n - 1) as nat);
        lemma_resolved_injects(entries[n - 1].1, decls, resolver);
    }
}

/// Params that pass validation can be filled in: no secret is missing then.
pub proof fn lemma_validated_params_inject<R: SecretResolver>(
    t: CborTree,
    decls: Seq<DeclView>,
    resolver: R,
)
    requires
        first_unresolved(refs_in(t), decls, resolver, refs_in(t).len()) is None,
    ensures
        injected(t, decls, resolver) is Ok,
{
    lemma_all_resolve(refs_in(t), decls, resolver, refs_in(t).len());
    lemma_resolved_injects(t, decls, resolver);
}

/// Params that refer to no secret stay as they are.
pub proof fn lemma_params_without_secrets<R: SecretResolver>(
    t: CborTree,
    decls: Seq<DeclView>,
    resolver: R,
)
    requires
        refs_in(t).len() == 0,
    ensures
        injected(t, decls, resolver) == Ok::<CborTree, SecretFault>(t),
    decreases t, 0nat,
{
    match t {
        CborTree::Array(items) => {
            lemma_items_without(items, decls, resolver, items.len());
            assert(items.take(items.len() as int) =~= items);
        },
        CborTree::Mapping(entries) => {
            lemma_entries_without(entries, decls, resolver, entries.len());
            assert(entries.take(entries.len() as int) =~= entries);
        },
        _ => {},
    }
}

proof fn lemma_items_without<R: SecretResolver>(
    items: Seq<CborTree>,
    decls: Seq<DeclView>,
    resolver: R,
    n: nat,
)
    requires
        n <= items.len(),
        refs_in_items(items, n).len() == 0,
    ensures
        items_injected(items, decls, resolver, n) == Ok::<_, SecretFault>(items.take(n as int)),
    decreases items, n,
{
    if n > 0 {
        lemma_items_without(items, decls, resolver, (n - 1) as nat);
        lemma_params_without_secrets(items[n - 1], decls, resolver);
        assert(items.take(n as int) =~= items.take(n - 1).push(items[n - 1]));
    } else {
        assert(items.take(0) =~= Seq::empty());
    }
}

proof fn lemma_entries_without<R: SecretResolver>(
    entries: Seq<(CborTree, CborTree)>,
    decls: Seq<DeclView>,
    resolver: R,
    n: nat,
)
    requires
        n <= entries.len(),
        refs_in_entries(entries, n).len() == 0,
    ensures
        entries_injected(entries, decls, resolver, n) == Ok::<_, SecretFault>(
            entries.take(n as int),
        ),
    decreases entries, n,
{
    if n > 0 {
        lemma_entries_without(entries, decls, resolver, (n - 1) as nat);
        lemma_params_without_secrets(entries[n - 1].1, decls, resolver);
        assert(entries.take(n as int) =~= entries.take(n - 1).push(entries[n - 1]));
    } else {
        assert(entries.take(0) =~= Seq::empty());
    }
}

} // verus!
