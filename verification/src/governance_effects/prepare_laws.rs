//! What preparing a patch comes to: where the patch is from, where it is put, and what it is of.
use vstd::prelude::*;

use crate::air::{AirNode, Builtins, Manifest, NodeKind};
use crate::error::KernelError;
use crate::governance::{ManifestPatch, PatchView};
use crate::governance_utils::{normalized, rewritten};
use crate::hash::{hash_text, hex_bytes, is_hash_text, sha256, HashRef};
use crate::patch_doc::{document_compiled, head_fault, nodes_stored, ops_applied, PatchDocument};
use crate::store::Store;

use super::{base_loaded, based_prepared, doc_compiled, hash_prepared, manifest_loaded,
    patch_decoded, patch_loaded, patch_prepared, patch_stored, ref_digest, stored_prepared,
    summarised, GovPatchInput, PatchCodec, PreparedPatch};

verus! {

/// A patch that is given by its digest is the one that the store holds under it. It stays there,
/// and is told against the manifest in force. No base can be named beside it.
pub proof fn lemma_patch_by_digest<S: Store<AirNode>, C: PatchCodec>(
    r: Result<PreparedPatch, KernelError>,
    before: S,
    after: S,
    codec: &C,
    current: Manifest,
    hash: HashRef,
    manifest_base: Option<HashRef>,
    builtins: Builtins,
)
    requires
        patch_prepared(
            r,
            before,
            after,
            codec,
            current,
            GovPatchInput::PatchHash(hash),
            manifest_base,
            builtins,
        ),
    ensures
        after == before,
        manifest_base is Some ==> r is Err,
        r matches Ok(p) ==> {
            &&& p.patch_hash == hash
            &&& p.base_manifest_hash is None
            &&& patch_loaded(Ok(p.patch), before, codec, ref_digest(hash))
            &&& summarised(p, codec, current)
        },
{
    if manifest_base is None {
        assert(hash_prepared(r, before, codec, current, hash));
    }
}

/// Whether a patch has been put into a store under the digest of its encoding.
pub open spec fn is_put<S: Store<AirNode>, C: PatchCodec>(
    before: S,
    after: S,
    codec: &C,
    patch: ManifestPatch,
    hash: HashRef,
) -> bool {
    exists|b: Vec<u8>| #[trigger]
        call_ensures(C::encode_patch, (codec, &patch), Ok::<Vec<u8>, String>(b)) && hash@
            == hash_text(sha256(b@)) && after.blobs().contains_key(sha256(b@)) && (
        !before.blobs().contains_key(sha256(b@)) ==> after.blobs() == before.blobs().insert(
            sha256(b@),
            b@,
        )) && (before.blobs().contains_key(sha256(b@)) ==> after.blobs() == before.blobs())
}

proof fn lemma_is_put<S: Store<AirNode>, C: PatchCodec>(
    before: S,
    after: S,
    codec: &C,
    patch: ManifestPatch,
    hash: HashRef,
)
    requires
        patch_stored(Ok(hash), before, after, codec, patch),
    ensures
        is_put(before, after, codec, patch, hash),
        after.nodes() == before.nodes(),
{
    let told = choose|told: Result<Vec<u8>, String>| #[trigger]
        call_ensures(C::encode_patch, (codec, &patch), told) && match told {
            Err(t) => false,
            Ok(b) => hash@ == hash_text(sha256(b@)) && after.blobs() == crate::store::or_insert(
                before.blobs(),
                sha256(b@),
                b@,
            ),
        };
    let b = told->Ok_0;
    assert(call_ensures(C::encode_patch, (codec, &patch), Ok::<Vec<u8>, String>(b)));
}

/// A patch that is given as bytes is what they hold, in canonical form. It is put into the store
/// under its digest, and is told against the manifest in force. No base can be named beside it.
pub proof fn lemma_patch_by_bytes<S: Store<AirNode>, C: PatchCodec>(
    r: Result<PreparedPatch, KernelError>,
    before: S,
    after: S,
    codec: &C,
    current: Manifest,
    bytes: Vec<u8>,
    manifest_base: Option<HashRef>,
    builtins: Builtins,
)
    requires
        patch_prepared(
            r,
            before,
            after,
            codec,
            current,
            GovPatchInput::PatchCbor(bytes),
            manifest_base,
            builtins,
        ),
    ensures
        manifest_base is Some ==> r is Err && after == before,
        r matches Ok(p) ==> {
            &&& p.base_manifest_hash is None
            &&& exists|d: ManifestPatch| #[trigger]
                patch_decoded(Ok(d), codec, bytes@) && p.patch@ == normalized(d@, builtins)
            &&& is_put(before, after, codec, p.patch, p.patch_hash)
            &&& after.nodes() == before.nodes()
            &&& summarised(p, codec, current)
        },
{
    if let Ok(p) = r {
        let decoded = choose|decoded: Result<ManifestPatch, KernelError>| #[trigger]
            patch_decoded(decoded, codec, bytes@) && match decoded {
                Err(e) => false,
                Ok(d) => exists|patch: ManifestPatch|
                    patch@ == normalized(d@, builtins) && #[trigger] stored_prepared(
                        r,
                        before,
                        after,
                        codec,
                        current,
                        patch,
                    ),
            };
        let d = decoded->Ok_0;
        assert(patch_decoded(Ok(d), codec, bytes@));
        let patch = choose|patch: ManifestPatch|
            patch@ == normalized(d@, builtins) && #[trigger] stored_prepared(
                r,
                before,
                after,
                codec,
                current,
                patch,
            );
        let stored = choose|stored: Result<HashRef, KernelError>| #[trigger]
            patch_stored(stored, before, after, codec, patch) && match stored {
                Err(e) => false,
                Ok(h) => p.patch == patch && p.patch_hash == h && p.base_manifest_hash is None
                    && summarised(p, codec, current),
            };
        assert(patch_stored(Ok(p.patch_hash), before, after, codec, p.patch));
        lemma_is_put(before, after, codec, p.patch, p.patch_hash);
    }
}

/// A patch that is given as a document is what the document compiles to; the base that the document
/// names must be the one that is named beside it, if one is. It is put into the store, and is told
/// against that base.
pub proof fn lemma_patch_by_document<S: Store<AirNode>, C: PatchCodec>(
    r: Result<PreparedPatch, KernelError>,
    before: S,
    after: S,
    codec: &C,
    current: Manifest,
    bytes: Vec<u8>,
    manifest_base: Option<HashRef>,
    builtins: Builtins,
)
    requires
        patch_prepared(
            r,
            before,
            after,
            codec,
            current,
            GovPatchInput::PatchDocJson(bytes),
            manifest_base,
            builtins,
        ),
    ensures
        r matches Ok(p) ==> {
            &&& p.base_manifest_hash matches Some(base)
            &&& manifest_base matches Some(named) ==> named@ == base@
            &&& exists|mid: S, m: Manifest|
                {
                    &&& #[trigger] doc_compiled(
                        Ok((p.patch, base)),
                        before,
                        mid,
                        codec,
                        bytes@,
                        builtins,
                    )
                    &&& is_put(mid, after, codec, p.patch, p.patch_hash)
                    &&& #[trigger] manifest_loaded(Ok(m), after, codec, ref_digest(base))
                    &&& summarised(p, codec, m)
                }
        },
{
    if let Ok(p) = r {
        let (made, mid) = choose|made: Result<(ManifestPatch, HashRef), KernelError>, mid: S|
            #[trigger] doc_compiled(made, before, mid, codec, bytes@, builtins) && match made {
                Err(e) => r == Err::<PreparedPatch, KernelError>(e) && after == mid,
                Ok((patch, base_hash)) => if manifest_base is Some && manifest_base->Some_0@
                    != base_hash@ {
                    r is Err
                } else {
                    based_prepared(r, mid, after, codec, patch, base_hash)
                },
            };
        let (patch, base_hash) = made->Ok_0;
        let stored = choose|stored: Result<HashRef, KernelError>| #[trigger]
            patch_stored(stored, mid, after, codec, patch) && match stored {
                Err(e) => r == Err::<PreparedPatch, KernelError>(e),
                Ok(h) => exists|base: Result<Manifest, KernelError>| #[trigger]
                    manifest_loaded(base, after, codec, ref_digest(base_hash)) && match base {
                        Err(e) => r == Err::<PreparedPatch, KernelError>(e),
                        Ok(m) => r is Ok && r->Ok_0.patch == patch && r->Ok_0.patch_hash == h
                            && r->Ok_0.base_manifest_hash == Some(base_hash) && summarised(
                            r->Ok_0,
                            codec,
                            m,
                        ),
                    },
            };
        let h = stored->Ok_0;
        let base = choose|base: Result<Manifest, KernelError>| #[trigger]
            manifest_loaded(base, after, codec, ref_digest(base_hash)) && match base {
                Err(e) => r == Err::<PreparedPatch, KernelError>(e),
                Ok(m) => r is Ok && r->Ok_0.patch == patch && r->Ok_0.patch_hash == h
                    && r->Ok_0.base_manifest_hash == Some(base_hash) && summarised(
                    r->Ok_0,
                    codec,
                    m,
                ),
            };
        lemma_is_put(mid, after, codec, p.patch, p.patch_hash);
        assert(doc_compiled(Ok((p.patch, base_hash)), before, mid, codec, bytes@, builtins));
        assert(manifest_loaded(Ok(base->Ok_0), after, codec, ref_digest(base_hash)));
    }
}

/// A document that compiles is sound in its head, names its base by a digest, and is applied to the
/// very manifest that the store holds under it.
pub proof fn lemma_document_is_applied_to_its_base<S: Store<AirNode>, C: PatchCodec>(
    patch: ManifestPatch,
    base: HashRef,
    before: S,
    after: S,
    codec: &C,
    bytes: Seq<u8>,
    builtins: Builtins,
)
    requires
        doc_compiled(Ok((patch, base)), before, after, codec, bytes, builtins),
    ensures
        exists|b: &Vec<u8>, doc: PatchDocument, m: Manifest|
            {
                &&& #[trigger] call_ensures(
                    C::decode_doc,
                    (codec, b),
                    Ok::<PatchDocument, String>(doc),
                )
                &&& b@ == bytes
                &&& base@ == doc.base_manifest_hash@
                &&& is_hash_text(base@)
                &&& head_fault(doc) is None
                &&& #[trigger] base_loaded(Ok(m), before, codec, hex_bytes(base@.skip(7)))
                &&& document_compiled(Ok(patch), before, after, doc, m@, builtins)
            },
{
    let r = Ok::<(ManifestPatch, HashRef), KernelError>((patch, base));
    let (b, told) = choose|b: &Vec<u8>, told: Result<PatchDocument, String>|
        b@ == bytes && #[trigger] call_ensures(C::decode_doc, (codec, b), told) && match told {
            Err(t) => false,
            Ok(doc) => is_hash_text(doc.base_manifest_hash@) && head_fault(doc) is None
                && super::base_patched(r, before, after, codec, doc, builtins),
        };
    let doc = told->Ok_0;
    assert(call_ensures(C::decode_doc, (codec, b), Ok::<PatchDocument, String>(doc)));
    let digest = hex_bytes(doc.base_manifest_hash@.skip(7));
    let loaded = choose|loaded: Result<Manifest, KernelError>| #[trigger]
        base_loaded(loaded, before, codec, digest) && match loaded {
            Err(e) => false,
            Ok(m) => base@ == doc.base_manifest_hash@ && document_compiled(
                Ok(patch),
                before,
                after,
                doc,
                m@,
                builtins,
            ),
        };
    assert(base_loaded(Ok(loaded->Ok_0), before, codec, digest));
}

/// A document compiles to what its changes make of the base, in canonical form and with the digests
/// of its own definitions, and these are in the store. Where it does not compile, the blobs of the
/// store are as they were.
pub proof fn lemma_document_compiles_to_its_changes<S: Store<AirNode>>(
    r: Result<ManifestPatch, KernelError>,
    before: S,
    after: S,
    doc: PatchDocument,
    base: crate::air::ManifestView,
    builtins: Builtins,
)
    requires
        document_compiled(r, before, after, doc, base, builtins),
    ensures
        after.blobs() == before.blobs(),
        r matches Ok(p) ==> {
            &&& head_fault(doc) is None
            &&& ops_applied(base, doc.patches@, doc.patches@.len()) matches Ok((m, nodes))
            &&& p@.nodes == normalized(PatchView { manifest: m, nodes }, builtins).nodes
            &&& p@.manifest == rewritten(
                normalized(PatchView { manifest: m, nodes }, builtins).manifest,
                p@.nodes,
            )
            &&& forall|i: int|
                0 <= i < nodes.len() ==> after.nodes().contains_key(
                    sha256((#[trigger] nodes[i]).bytes),
                )
            &&& forall|h: Seq<u8>| #[trigger]
                before.nodes().contains_key(h) ==> after.nodes().contains_key(h)
                    && after.nodes()[h] == before.nodes()[h]
        },
        head_fault(doc) is Some ==> r is Err && after.nodes() == before.nodes(),
        ops_applied(base, doc.patches@, doc.patches@.len()) is Err ==> r is Err && after.nodes()
            == before.nodes(),
{
    if let Ok(p) = r {
        let (m, nodes) = ops_applied(base, doc.patches@, doc.patches@.len())->Ok_0;
        lemma_nodes_are_stored(before.nodes(), nodes, nodes.len());
    }
}

proof fn lemma_nodes_are_stored(
    before: Map<Seq<u8>, crate::air::NodeTree>,
    nodes: Seq<crate::air::NodeTree>,
    n: nat,
)
    requires
        n <= nodes.len(),
    ensures
        forall|i: int|
            0 <= i < n ==> nodes_stored(before, nodes, n).contains_key(
                sha256((#[trigger] nodes[i]).bytes),
            ),
        forall|h: Seq<u8>| #[trigger]
            before.contains_key(h) ==> nodes_stored(before, nodes, n).contains_key(h)
                && nodes_stored(before, nodes, n)[h] == before[h],
    decreases n,
{
    if n > 0 {
        lemma_nodes_are_stored(before, nodes, (n - 1) as nat);
    }
}

/// A manifest that a patch is told against is had only from a definition of that kind.
pub proof fn lemma_base_is_a_manifest<S: Store<AirNode>, C: PatchCodec>(
    m: Manifest,
    store: S,
    codec: &C,
    digest: Seq<u8>,
)
    requires
        manifest_loaded(Ok(m), store, codec, digest),
    ensures
        store.nodes().contains_key(digest),
        store.nodes()[digest].kind == NodeKind::Manifest,
        exists|b: &Vec<u8>|
            b@ == store.nodes()[digest].bytes && #[trigger] call_ensures(
                C::decode_manifest,
                (codec, b),
                Ok::<Manifest, String>(m),
            ),
{
    let (b, told) = choose|b: &Vec<u8>, told: Result<Manifest, String>|
        b@ == store.nodes()[digest].bytes && #[trigger] call_ensures(
            C::decode_manifest,
            (codec, b),
            told,
        ) && match told {
            Ok(x) => m == x,
            Err(t) => false,
        };
    assert(call_ensures(C::decode_manifest, (codec, b), Ok::<Manifest, String>(m)));
}

} // verus!
