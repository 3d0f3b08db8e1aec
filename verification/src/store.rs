//! Content-addressed storage.
//!
//! A store holds nodes and blobs under the digest of their bytes. What is stored under a digest
//! stays there.
use vstd::prelude::*;

use crate::bytes::bytes_eq;
use crate::cbor::clone_bytes;
use crate::hash::{hash_text, sha256, ContentHash};
use crate::text::{decimal, decimal_text, join2, join3, join4, join5, join7};

verus! {

/// What is stored under a hash.
#[derive(Clone, Copy, Debug, PartialEq, Eq, Structural)]
pub enum EntryKind {
    Node,
    Blob,
}

/// What can go wrong in a store.
#[allow(inconsistent_fields)]
#[derive(Debug)]
pub enum StoreError {
    Io { path: String, reason: String },
    Cbor(String),
    HashMismatch { kind: EntryKind, expected: ContentHash, actual: ContentHash },
    InvalidHashString { value: String, reason: String },
    NodeKindMismatch { name: String, expected: &'static str },
    InvalidSecretVersion { alias: String, version: u64, context: String },
    DuplicateSecret { alias: String, version: u64 },
    SecretMissingBinding { alias: String, version: u64 },
    UnknownSecret { alias: String, version: u64, context: String },
    InvalidSecretName { name: String, reason: String },
    ReservedSysName { kind: &'static str, name: String },
    UnsupportedAirVersion { found: String, supported: String },
    MissingAirVersion { supported: String },
}

/// The model of a store error.
#[allow(inconsistent_fields)]
pub enum StoreFault {
    Io { path: Seq<char>, reason: Seq<char> },
    Cbor(Seq<char>),
    HashMismatch { kind: EntryKind, expected: Seq<u8>, actual: Seq<u8> },
    InvalidHashString { value: Seq<char>, reason: Seq<char> },
    NodeKindMismatch { name: Seq<char>, expected: Seq<char> },
    InvalidSecretVersion { alias: Seq<char>, version: u64, context: Seq<char> },
    DuplicateSecret { alias: Seq<char>, version: u64 },
    SecretMissingBinding { alias: Seq<char>, version: u64 },
    UnknownSecret { alias: Seq<char>, version: u64, context: Seq<char> },
    InvalidSecretName { name: Seq<char>, reason: Seq<char> },
    ReservedSysName { kind: Seq<char>, name: Seq<char> },
    UnsupportedAirVersion { found: Seq<char>, supported: Seq<char> },
    MissingAirVersion { supported: Seq<char> },
}

impl View for StoreError {
    type V = StoreFault;

    open spec fn view(&self) -> StoreFault {
        match *self {
            StoreError::Io { path, reason } => StoreFault::Io { path: path@, reason: reason@ },
            StoreError::Cbor(m) => StoreFault::Cbor(m@),
            StoreError::HashMismatch { kind, expected, actual } => StoreFault::HashMismatch {
                kind,
                expected: expected@,
                actual: actual@,
            },
            StoreError::InvalidHashString { value, reason } => StoreFault::InvalidHashString {
                value: value@,
                reason: reason@,
            },
            StoreError::NodeKindMismatch { name, expected } => StoreFault::NodeKindMismatch {
                name: name@,
                expected: expected@,
            },
            StoreError::InvalidSecretVersion {
                alias,
                version,
                context,
            } => StoreFault::InvalidSecretVersion { alias: alias@, version, context: context@ },
            StoreError::DuplicateSecret { alias, version } => StoreFault::DuplicateSecret {
                alias: alias@,
                version,
            },
            StoreError::SecretMissingBinding { alias, version } => StoreFault::SecretMissingBinding {
                alias: alias@,
                version,
            },
            StoreError::UnknownSecret { alias, version, context } => StoreFault::UnknownSecret {
                alias: alias@,
                version,
                context: context@,
            },
            StoreError::InvalidSecretName { name, reason } => StoreFault::InvalidSecretName {
                name: name@,
                reason: reason@,
            },
            StoreError::ReservedSysName { kind, name } => StoreFault::ReservedSysName {
                kind: kind@,
                name: name@,
            },
            StoreError::UnsupportedAirVersion {
                found,
                supported,
            } => StoreFault::UnsupportedAirVersion { found: found@, supported: supported@ },
            StoreError::MissingAirVersion { supported } => StoreFault::MissingAirVersion {
                supported: supported@,
            },
        }
    }
}

impl StoreError {
    /// The wording of the error.
    pub open spec fn text(self) -> Seq<char> {
        match self {
            StoreError::Io { path, reason } => "I/O error at \""@ + path@ + "\": "@ + reason@,
            StoreError::Cbor(m) => "CBOR serialization error: "@ + m@,
            StoreError::HashMismatch { kind, expected, actual } => "hash mismatch for "@ + (
            match kind {
                EntryKind::Node => "Node"@,
                EntryKind::Blob => "Blob"@,
            }) + ": expected "@ + hash_text(expected@) + ", got "@ + hash_text(actual@),
            StoreError::InvalidHashString { value, reason } => "invalid hash string '"@ + value@
                + "': "@ + reason@,
            StoreError::NodeKindMismatch { name, expected } => "node '"@ + name@ + "' is not a "@
                + expected@,
            StoreError::InvalidSecretVersion { alias, version, context } => "secret "@ + alias@
                + "@"@ + decimal(version as nat)
                + " has invalid version (must be >=1) (context: "@ + context@ + ")"@,
            StoreError::DuplicateSecret { alias, version } => "manifest declares duplicate secret "@
                + alias@ + "@"@ + decimal(version as nat),
            StoreError::SecretMissingBinding { alias, version } => "secret "@ + alias@ + "@"@
                + decimal(version as nat) + " missing binding_id"@,
            StoreError::UnknownSecret { alias, version, context } => "secret "@ + alias@ + "@"@
                + decimal(version as nat) + " not declared (context: "@ + context@ + ")"@,
            StoreError::InvalidSecretName { name, reason } => "secret name '"@ + name@
                + "' is invalid: "@ + reason@,
            StoreError::ReservedSysName { kind, name } => "reserved sys/* name '"@ + name@
                + "' is not allowed for "@ + kind@,
            StoreError::UnsupportedAirVersion { found, supported } =>
            "manifest declares unsupported air_version '"@ + found@ + "' (supported: "@ + supported@
                + ")"@,
            StoreError::MissingAirVersion { supported } =>
            "manifest must declare air_version (supported: "@ + supported@ + ")"@,
        }
    }

    pub fn message(&self) -> (r: String)
        ensures
            r@ == self.text(),
    {
        match self {
            StoreError::Io { path, reason } => join4(
                "I/O error at \"",
                path.as_str(),
                "\": ",
                reason.as_str(),
            ),
            StoreError::Cbor(m) => join2("CBOR serialization error: ", m.as_str()),
            StoreError::HashMismatch { kind, expected, actual } => {
                let k = match kind {
                    EntryKind::Node => "Node",
                    EntryKind::Blob => "Blob",
                };
                let head = join3("hash mismatch for ", k, ": expected ");
                join4(
                    head.as_str(),
                    expected.to_hex().as_str(),
                    ", got ",
                    actual.to_hex().as_str(),
                )
            },
            StoreError::InvalidHashString { value, reason } => join4(
                "invalid hash string '",
                value.as_str(),
                "': ",
                reason.as_str(),
            ),
            StoreError::NodeKindMismatch { name, expected } => join4(
                "node '",
                name.as_str(),
                "' is not a ",
                expected,
            ),
            StoreError::InvalidSecretVersion { alias, version, context } => join7(
                "secret ",
                alias.as_str(),
                "@",
                decimal_text(*version).as_str(),
                " has invalid version (must be >=1) (context: ",
                context.as_str(),
                ")",
            ),
            StoreError::DuplicateSecret { alias, version } => join4(
                "manifest declares duplicate secret ",
                alias.as_str(),
                "@",
                decimal_text(*version).as_str(),
            ),
            StoreError::SecretMissingBinding { alias, version } => join5(
                "secret ",
                alias.as_str(),
                "@",
                decimal_text(*version).as_str(),
                " missing binding_id",
            ),
            StoreError::UnknownSecret { alias, version, context } => join7(
                "secret ",
                alias.as_str(),
                "@",
                decimal_text(*version).as_str(),
                " not declared (context: ",
                context.as_str(),
                ")",
            ),
            StoreError::InvalidSecretName { name, reason } => join4(
                "secret name '",
                name.as_str(),
                "' is invalid: ",
                reason.as_str(),
            ),
            StoreError::ReservedSysName { kind, name } => join4(
                "reserved sys/* name '",
                name.as_str(),
                "' is not allowed for ",
                kind,
            ),
            StoreError::UnsupportedAirVersion { found, supported } => join5(
                "manifest declares unsupported air_version '",
                found.as_str(),
                "' (supported: ",
                supported.as_str(),
                ")",
            ),
            StoreError::MissingAirVersion { supported } => join3(
                "manifest must declare air_version (supported: ",
                supported.as_str(),
                ")",
            ),
        }
    }
}

pub type StoreResult<T> = Result<T, StoreError>;

/// A node that a store can hold.
pub trait StoreNode: View + Sized {
    /// The bytes of a node, or why it has none.
    spec fn encoding(v: Self::V) -> Result<Seq<u8>, Seq<char>>;

    /// The bytes of the node.
    fn encode(&self) -> (r: Result<Vec<u8>, String>)
        ensures
            match (r, Self::encoding(self@)) {
                (Ok(b), Ok(t)) => b@ == t,
                (Err(e), Err(t)) => e@ == t,
                _ => false,
            },
    ;

    /// A copy of the node.
    fn copied(&self) -> (r: Self)
        ensures
            r@ == self@,
    ;
}

/// A store of nodes and blobs.
pub trait Store<N: StoreNode>: Sized {
    /// The nodes, by digest.
    spec fn nodes(&self) -> Map<Seq<u8>, N::V>;

    /// The blobs, by digest.
    spec fn blobs(&self) -> Map<Seq<u8>, Seq<u8>>;

    /// Stores a node under the digest of its bytes, unless that digest is taken.
    fn put_node(&mut self, node: &N) -> (r: StoreResult<ContentHash>)
        ensures
            final(self).blobs() == old(self).blobs(),
            match r {
                Ok(h) => node_put(old(self).nodes(), final(self).nodes(), N::encoding(node@), node@, h@),
                Err(_) => final(self).nodes() == old(self).nodes(),
            },
    ;

    /// The node under a digest.
    fn get_node(&self, hash: ContentHash) -> (r: StoreResult<N>)
        ensures
            r matches Ok(n) ==> self.nodes().contains_key(hash@) && n@ == self.nodes()[hash@]
                && (N::encoding(n@) matches Ok(b) && sha256(b) == hash@),
    ;

    fn has_node(&self, hash: ContentHash) -> (r: StoreResult<bool>)
        ensures
            r matches Ok(b) ==> b == self.nodes().contains_key(hash@),
    ;

    /// Stores a blob under its digest.
    fn put_blob(&mut self, bytes: &Vec<u8>) -> (r: StoreResult<ContentHash>)
        ensures
            final(self).nodes() == old(self).nodes(),
            match r {
                Ok(h) => h@ == sha256(bytes@) && final(self).blobs() == or_insert(
                    old(self).blobs(),
                    h@,
                    bytes@,
                ),
                Err(_) => final(self).blobs() == old(self).blobs(),
            },
    ;

    /// The blob under a digest.
    fn get_blob(&self, hash: ContentHash) -> (r: StoreResult<Vec<u8>>)
        ensures
            r matches Ok(b) ==> self.blobs().contains_key(hash@) && b@ == self.blobs()[hash@]
                && sha256(b@) == hash@,
    ;

    fn has_blob(&self, hash: ContentHash) -> (r: StoreResult<bool>)
        ensures
            r matches Ok(b) ==> b == self.blobs().contains_key(hash@),
    ;
}

/// Whether `e` is what the store may answer when asked for the node under a digest.
pub open spec fn read_fails<N: StoreNode, S: Store<N>>(
    store: S,
    hash: Seq<u8>,
    e: StoreError,
) -> bool {
    exists|h: ContentHash|
        h@ == hash && #[trigger] call_ensures(S::get_node, (&store, h), Err::<N, StoreError>(e))
}

/// Whether `e` is what the store may answer when asked for the blob under a digest.
pub open spec fn blob_fails<N: StoreNode, S: Store<N>>(
    store: S,
    hash: Seq<u8>,
    e: StoreError,
) -> bool {
    exists|h: ContentHash|
        h@ == hash && #[trigger] call_ensures(
            S::get_blob,
            (&store, h),
            Err::<Vec<u8>, StoreError>(e),
        )
}

/// Whether `e` is what the store may answer when handed a blob.
pub open spec fn blob_write_fails<N: StoreNode, S: Store<N>>(
    store: S,
    bytes: Seq<u8>,
    e: StoreError,
) -> bool {
    exists|m: &mut S, b: &Vec<u8>|
        *m == store && b@ == bytes && #[trigger] call_ensures(
            S::put_blob,
            (m, b),
            Err::<ContentHash, StoreError>(e),
        )
}

/// Whether `e` is what the store may answer when handed a node.
pub open spec fn write_fails<N: StoreNode, S: Store<N>>(store: S, v: N::V, e: StoreError) -> bool {
    exists|m: &mut S, n: &N|
        *m == store && n@ == v && #[trigger] call_ensures(
            S::put_node,
            (m, n),
            Err::<ContentHash, StoreError>(e),
        )
}

/// The mapping with `k` bound to `v` unless it is bound already.
pub open spec fn or_insert<V>(m: Map<Seq<u8>, V>, k: Seq<u8>, v: V) -> Map<Seq<u8>, V> {
    if m.contains_key(k) {
        m
    } else {
        m.insert(k, v)
    }
}

/// What storing a node does: it goes under the digest of its bytes.
pub open spec fn node_put<V>(
    before: Map<Seq<u8>, V>,
    after: Map<Seq<u8>, V>,
    encoding: Result<Seq<u8>, Seq<char>>,
    node: V,
    hash: Seq<u8>,
) -> bool {
    encoding matches Ok(b) && hash == sha256(b) && after == or_insert(before, hash, node)
}

/// The index of the first entry under `key`, or the number of entries.
pub open spec fn key_index<V>(entries: Seq<(ContentHash, V)>, key: Seq<u8>) -> int
    decreases entries.len(),
{
    if entries.len() == 0 {
        0
    } else if entries[0].0@ == key {
        0
    } else {
        1 + key_index(entries.drop_first(), key)
    }
}

pub proof fn lemma_key_index<V>(entries: Seq<(ContentHash, V)>, key: Seq<u8>)
    ensures
        0 <= key_index(entries, key) <= entries.len(),
        key_index(entries, key) < entries.len() ==> entries[key_index(entries, key)].0@ == key,
        forall|i: int| 0 <= i < key_index(entries, key) ==> (#[trigger] entries[i]).0@ != key,
    decreases entries.len(),
{
    if entries.len() > 0 && entries[0].0@ != key {
        lemma_key_index(entries.drop_first(), key);
        assert forall|i: int| 0 <= i < key_index(entries, key) implies (#[trigger] entries[i]).0@
            != key by {
            if i > 0 {
                assert(entries.drop_first()[i - 1] == entries[i]);
            }
        }
    }
}

proof fn lemma_key_index_push<V>(entries: Seq<(ContentHash, V)>, e: (ContentHash, V), key: Seq<u8>)
    ensures
        key_index(entries.push(e), key) == if key_index(entries, key) < entries.len() {
            key_index(entries, key)
        } else if e.0@ == key {
            entries.len() as int
        } else {
            entries.len() as int + 1
        },
    decreases entries.len(),
{
    lemma_key_index(entries, key);
    if entries.len() > 0 && entries[0].0@ != key {
        lemma_key_index_push(entries.drop_first(), e, key);
        assert(entries.push(e).drop_first() =~= entries.drop_first().push(e));
    } else if entries.len() == 0 {
        reveal_with_fuel(key_index, 2);
        assert(entries.push(e).drop_first() =~= Seq::empty());
    }
}

/// The mapping that a list of entries stands for.
pub open spec fn table_map<V>(entries: Seq<(ContentHash, V)>) -> Map<Seq<u8>, V> {
    Map::new(
        |key: Seq<u8>| key_index(entries, key) < entries.len(),
        |key: Seq<u8>| entries[key_index(entries, key)].1,
    )
}

/// Values under digests.
#[derive(Debug)]
pub struct HashTable<V> {
    entries: Vec<(ContentHash, V)>,
}

impl<V> HashTable<V> {
    pub closed spec fn map(&self) -> Map<Seq<u8>, V> {
        table_map(self.entries@)
    }

    pub fn new() -> (r: Self)
        ensures
            r.map() == Map::<Seq<u8>, V>::empty(),
    {
        let r = HashTable { entries: Vec::new() };
        assert(r.map() =~= Map::<Seq<u8>, V>::empty());
        r
    }

    pub fn get(&self, hash: &ContentHash) -> (r: Option<&V>)
        ensures
            match r {
                Some(v) => self.map().contains_key(hash@) && self.map()[hash@] == *v,
                None => !self.map().contains_key(hash@),
            },
    {
        let ghost s = self.entries@;
        let mut i: usize = 0;
        assert(s.skip(0) =~= s);
        while i < self.entries.len()
            invariant
                i <= self.entries@.len(),
                s == self.entries@,
                key_index(s, hash@) == i + key_index(s.skip(i as int), hash@),
            decreases self.entries@.len() - i,
        {
            assert(s.skip(i as int)[0] == s[i as int]);
            if bytes_eq(self.entries[i].0.as_bytes(), hash.as_bytes()) {
                return Some(&self.entries[i].1);
            }
            assert(s.skip(i as int).drop_first() =~= s.skip(i + 1));
            i += 1;
        }
        None
    }

    /// Binds `hash` to `v` unless it is bound already.
    pub fn insert_if_absent(&mut self, hash: ContentHash, v: V)
        ensures
            final(self).map() == or_insert(old(self).map(), hash@, v),
    {
        if self.get(&hash).is_some() {
            return ;
        }
        let ghost before = self.entries@;
        self.entries.push((hash, v));
        proof {
            assert forall|key: Seq<u8>|
                #![trigger key_index(self.entries@, key)]
                key_index(self.entries@, key) == (if key_index(before, key) < before.len() {
                    key_index(before, key)
                } else if hash@ == key {
                    before.len() as int
                } else {
                    before.len() as int + 1
                }) && 0 <= key_index(before, key) by {
                lemma_key_index_push(before, (hash, v), key);
                lemma_key_index(before, key);
            }
            assert(self.map() =~= or_insert(old(self).map(), hash@, v));
        }
    }
}

/// A store in memory.
#[derive(Debug)]
pub struct MemStore<N> {
    nodes: HashTable<N>,
    blobs: HashTable<Vec<u8>>,
}

impl<N: StoreNode> MemStore<N> {
    pub fn new() -> (r: Self)
        ensures
            r.nodes() == Map::<Seq<u8>, N::V>::empty(),
            r.blobs() == Map::<Seq<u8>, Seq<u8>>::empty(),
    {
        let r = MemStore { nodes: HashTable::new(), blobs: HashTable::new() };
        assert(r.nodes() =~= Map::<Seq<u8>, N::V>::empty());
        assert(r.blobs() =~= Map::<Seq<u8>, Seq<u8>>::empty());
        r
    }
}

/// The error of a digest under which nothing is stored.
pub open spec fn is_missing(e: StoreError, kind: EntryKind, hash: Seq<u8>) -> bool {
    e matches StoreError::Io { path, reason } && path@ == "memory://"@ + (if kind
        == EntryKind::Node {
        "Node"@
    } else {
        "Blob"@
    }) + "/"@ + hash_text(hash) && reason@ == "entry not found"@
}

fn missing(kind: EntryKind, hash: &ContentHash) -> (r: StoreError)
    ensures
        is_missing(r, kind, hash@),
{
    let name = match kind {
        EntryKind::Node => "Node",
        EntryKind::Blob => "Blob",
    };
    let head = join3("memory://", name, "/");
    StoreError::Io {
        path: join2(head.as_str(), hash.to_hex().as_str()),
        reason: "entry not found".to_owned(),
    }
}

impl<N: StoreNode> Store<N> for MemStore<N> {
    closed spec fn nodes(&self) -> Map<Seq<u8>, N::V> {
        self.nodes.map().map_values(|n: N| n@)
    }

    closed spec fn blobs(&self) -> Map<Seq<u8>, Seq<u8>> {
        self.blobs.map().map_values(|b: Vec<u8>| b@)
    }

    fn put_node(&mut self, node: &N) -> (r: StoreResult<ContentHash>)
        ensures
            r is Ok <==> N::encoding(node@) is Ok,
            r matches Err(e) ==> e matches StoreError::Cbor(t) && N::encoding(node@) == Err::<
                Seq<u8>,
                Seq<char>,
            >(t@),
    {
        let bytes = match node.encode() {
            Ok(b) => b,
            Err(e) => {
                return Err(StoreError::Cbor(e));
            },
        };
        let hash = ContentHash::of_bytes(bytes.as_slice());
        self.nodes.insert_if_absent(hash, node.copied());
        assert(self.nodes() =~= or_insert(old(self).nodes(), hash@, node@));
        Ok(hash)
    }

    fn get_node(&self, hash: ContentHash) -> (r: StoreResult<N>)
        ensures
            !self.nodes().contains_key(hash@) ==> r is Err && is_missing(
                r->Err_0,
                EntryKind::Node,
                hash@,
            ),
            self.nodes().contains_key(hash@) ==> match N::encoding(self.nodes()[hash@]) {
                Err(t) => r matches Err(StoreError::Cbor(e)) && e@ == t,
                Ok(b) => if sha256(b) == hash@ {
                    r is Ok
                } else {
                    r matches Err(StoreError::HashMismatch { kind, expected, actual }) && kind
                        == EntryKind::Node && expected@ == hash@ && actual@ == sha256(b)
                },
            },
    {
        let node = match self.nodes.get(&hash) {
            Some(n) => n,
            None => {
                return Err(missing(EntryKind::Node, &hash));
            },
        };
        let bytes = match node.encode() {
            Ok(b) => b,
            Err(e) => {
                return Err(StoreError::Cbor(e));
            },
        };
        let actual = ContentHash::of_bytes(bytes.as_slice());
        if !bytes_eq(actual.as_bytes(), hash.as_bytes()) {
            return Err(
                StoreError::HashMismatch { kind: EntryKind::Node, expected: hash, actual },
            );
        }
        Ok(node.copied())
    }

    fn has_node(&self, hash: ContentHash) -> (r: StoreResult<bool>)
        ensures
            r is Ok,
    {
        Ok(self.nodes.get(&hash).is_some())
    }

    fn put_blob(&mut self, bytes: &Vec<u8>) -> (r: StoreResult<ContentHash>)
        ensures
            r is Ok,
    {
        let hash = ContentHash::of_bytes(bytes.as_slice());
        self.blobs.insert_if_absent(hash, clone_bytes(bytes));
        assert(self.blobs() =~= or_insert(old(self).blobs(), hash@, bytes@));
        Ok(hash)
    }

    fn get_blob(&self, hash: ContentHash) -> (r: StoreResult<Vec<u8>>)
        ensures
            !self.blobs().contains_key(hash@) ==> r is Err && is_missing(
                r->Err_0,
                EntryKind::Blob,
                hash@,
            ),
            self.blobs().contains_key(hash@) ==> if sha256(self.blobs()[hash@]) == hash@ {
                r is Ok
            } else {
                r matches Err(StoreError::HashMismatch { kind, expected, actual }) && kind
                    == EntryKind::Blob && expected@ == hash@ && actual@ == sha256(
                    self.blobs()[hash@],
                )
            },
    {
        let bytes = match self.blobs.get(&hash) {
            Some(b) => b,
            None => {
                return Err(missing(EntryKind::Blob, &hash));
            },
        };
        let actual = ContentHash::of_bytes(bytes.as_slice());
        if !bytes_eq(actual.as_bytes(), hash.as_bytes()) {
            return Err(
                StoreError::HashMismatch { kind: EntryKind::Blob, expected: hash, actual },
            );
        }
        Ok(clone_bytes(bytes))
    }

    fn has_blob(&self, hash: ContentHash) -> (r: StoreResult<bool>)
        ensures
            r is Ok,
    {
        Ok(self.blobs.get(&hash).is_some())
    }
}

/// A node that has been put is found under its digest, unless other content had that digest
/// before. What was stored before is still there.
pub proof fn lemma_put_node_is_found<V>(
    before: Map<Seq<u8>, V>,
    after: Map<Seq<u8>, V>,
    encoding: Result<Seq<u8>, Seq<char>>,
    node: V,
    hash: Seq<u8>,
)
    requires
        node_put(before, after, encoding, node, hash),
    ensures
        after.contains_key(hash),
        !before.contains_key(hash) || before[hash] == node ==> after[hash] == node,
        forall|k: Seq<u8>| #[trigger]
            before.contains_key(k) ==> after.contains_key(k) && after[k] == before[k],
{
}

/// A store in memory gives every node that it holds under the digest of the node's bytes.
pub proof fn lemma_memory_gives<N: StoreNode>(store: MemStore<N>, hash: Seq<u8>, e: StoreError)
    requires
        store.nodes().contains_key(hash),
        N::encoding(store.nodes()[hash]) matches Ok(b) && sha256(b) == hash,
    ensures
        !read_fails::<N, MemStore<N>>(store, hash, e),
{
}

/// A store in memory takes every node that has bytes.
pub proof fn lemma_memory_takes<N: StoreNode>(store: MemStore<N>, v: N::V, e: StoreError)
    requires
        N::encoding(v) is Ok,
    ensures
        !write_fails::<N, MemStore<N>>(store, v, e),
{
}

} // verus!
