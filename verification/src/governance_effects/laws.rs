//! What summaries of patches tell, and what proposals are read from.
use vstd::prelude::*;

use crate::air::{AirNode, ManifestView};
use crate::cbor::CborTree;
use crate::error::KernelError;
use crate::governance::ManifestPatch;
use crate::governance_utils::{ref_change, NamedRefDiffKind};
use crate::hash::{hash_text, hex_text, lemma_hex_text, sha256, HashRef};
use crate::store::Store;
use crate::variant::{unit_tag, variant_of};

use super::{approval_decisions, change_actions, changes_view, delta_kinds, is_propose_params,
    is_summary, ledger_kinds, op_words, option_hash, patch_input_of, patch_stored, push_if,
    ref_digest, secret_refs, secrets_view, section_words, settled_base, subscriptions, tag_lookup,
    tagged, texts_view, ChangeView, GovApprovalDecision, GovChangeAction, GovDeltaKind,
    GovLedgerKind, GovPatchInput, GovPatchSummary, GovProposeParams, InputView, ManifestSections,
    PatchCodec, PreparedPatch, Touched};

verus! {

/// The action that tells how a reference differs.
pub open spec fn tells_of(d: NamedRefDiffKind, a: GovChangeAction) -> bool {
    match d {
        NamedRefDiffKind::Added => a == GovChangeAction::Added,
        NamedRefDiffKind::Removed => a == GovChangeAction::Removed,
        NamedRefDiffKind::Changed => a == GovChangeAction::Changed,
    }
}

proof fn lemma_kinds_differ()
    ensures
        "defschema"@ != "defmodule"@ && "defschema"@ != "defeffect"@ && "defschema"@ != "defcap"@
            && "defschema"@ != "defpolicy"@ && "defschema"@ != "defsecret"@,
        "defmodule"@ != "defeffect"@ && "defmodule"@ != "defcap"@ && "defmodule"@ != "defpolicy"@
            && "defmodule"@ != "defsecret"@,
        "defeffect"@ != "defcap"@ && "defeffect"@ != "defpolicy"@ && "defeffect"@ != "defsecret"@,
        "defcap"@ != "defpolicy"@ && "defcap"@ != "defsecret"@ && "defpolicy"@ != "defsecret"@,
{
    reveal_strlit("defschema");
    reveal_strlit("defmodule");
    reveal_strlit("defeffect");
    reveal_strlit("defcap");
    reveal_strlit("defpolicy");
    reveal_strlit("defsecret");
    assert("defschema"@[3] == 's' && "defschema"@[4] == 'c');
    assert("defsecret"@[3] == 's' && "defsecret"@[4] == 'e');
    assert("defmodule"@[3] == 'm' && "defeffect"@[3] == 'e' && "defcap"@[3] == 'c');
    assert("defpolicy"@[3] == 'p');
}

/// A summary lists a change of a definition if and only if the two manifests differ in the
/// reference to it, under the kind of its list and with the action that tells how. Secrets are
/// compared by their names and digests.
pub proof fn lemma_summary_lists_the_changes(
    s: GovPatchSummary,
    base: ManifestView,
    base_s: ManifestSections,
    next: ManifestView,
    next_s: ManifestSections,
    base_hash: Option<Seq<char>>,
    patch_hash: Seq<char>,
    name: Seq<char>,
    action: GovChangeAction,
)
    requires
        is_summary(s, base, base_s, next, next_s, base_hash, patch_hash),
    ensures
        s.patch_hash@ == patch_hash,
        option_hash(s.base_manifest_hash) == base_hash,
        ({
            let told = changes_view(s.def_changes@);
            &&& told.contains(("defschema"@, name, action)) <==> (ref_change(
                base.schemas,
                next.schemas,
                name,
            ) matches Some(d) && tells_of(d, action))
            &&& told.contains(("defmodule"@, name, action)) <==> (ref_change(
                base.modules,
                next.modules,
                name,
            ) matches Some(d) && tells_of(d, action))
            &&& told.contains(("defeffect"@, name, action)) <==> (ref_change(
                base.effects,
                next.effects,
                name,
            ) matches Some(d) && tells_of(d, action))
            &&& told.contains(("defcap"@, name, action)) <==> (ref_change(
                base.caps,
                next.caps,
                name,
            ) matches Some(d) && tells_of(d, action))
            &&& told.contains(("defpolicy"@, name, action)) <==> (ref_change(
                base.policies,
                next.policies,
                name,
            ) matches Some(d) && tells_of(d, action))
            &&& told.contains(("defsecret"@, name, action)) <==> (ref_change(
                secret_refs(secrets_view(base_s.secrets@)),
                secret_refs(secrets_view(next_s.secrets@)),
                name,
            ) matches Some(d) && tells_of(d, action))
        }),
{
    lemma_kinds_differ();
}

proof fn lemma_pushed(s: Seq<Seq<char>>, cond: bool, word: Seq<char>, x: Seq<char>)
    ensures
        push_if(s, cond, word).contains(x) <==> s.contains(x) || (cond && x == word),
{
    let t = s.push(word);
    if t.contains(x) {
        let i = choose|i: int| 0 <= i < t.len() && t[i] == x;
        if i < s.len() {
            assert(s[i] == x);
        }
    }
    if s.contains(x) {
        let i = choose|i: int| 0 <= i < s.len() && s[i] == x;
        assert(t[i] == x);
    }
    assert(t[s.len() as int] == word);
}

proof fn lemma_section_words(t: Touched, x: Seq<char>)
    ensures
        section_words(t).contains(x) <==> {
            ||| t.defaults && x == "defaults"@
            ||| t.refs && x == "manifest_refs"@
            ||| t.module_bindings && x == "module_bindings"@
            ||| t.routing_events && x == "routing_events"@
            ||| t.routing_inboxes && x == "routing_inboxes"@
            ||| t.secrets && x == "secrets"@
        },
{
    let a = push_if(Seq::empty(), t.defaults, "defaults"@);
    let b = push_if(a, t.refs, "manifest_refs"@);
    let c = push_if(b, t.module_bindings, "module_bindings"@);
    let d = push_if(c, t.routing_events, "routing_events"@);
    let e = push_if(d, t.routing_inboxes, "routing_inboxes"@);
    lemma_pushed(Seq::empty(), t.defaults, "defaults"@, x);
    lemma_pushed(a, t.refs, "manifest_refs"@, x);
    lemma_pushed(b, t.module_bindings, "module_bindings"@, x);
    lemma_pushed(c, t.routing_events, "routing_events"@, x);
    lemma_pushed(d, t.routing_inboxes, "routing_inboxes"@, x);
    lemma_pushed(e, t.secrets, "secrets"@, x);
    assert(!Seq::<Seq<char>>::empty().contains(x));
}

proof fn lemma_op_words(changes: Seq<ChangeView>, t: Touched, x: Seq<char>)
    ensures
        op_words(changes, t).contains(x) <==> {
            ||| x == "add_def"@ && exists|i: int|
                0 <= i < changes.len() && (#[trigger] changes[i]).2 == GovChangeAction::Added
            ||| x == "remove_def"@ && exists|i: int|
                0 <= i < changes.len() && (#[trigger] changes[i]).2 == GovChangeAction::Removed
            ||| x == "replace_def"@ && exists|i: int|
                0 <= i < changes.len() && (#[trigger] changes[i]).2 == GovChangeAction::Changed
            ||| t.defaults && x == "set_defaults"@
            ||| t.refs && x == "set_manifest_refs"@
            ||| t.module_bindings && x == "set_module_bindings"@
            ||| t.routing_events && x == "set_routing_events"@
            ||| t.routing_inboxes && x == "set_routing_inboxes"@
            ||| t.secrets && x == "set_secrets"@
        },
{
    let added = super::some_action(changes, GovChangeAction::Added);
    let gone = super::some_action(changes, GovChangeAction::Removed);
    let other = super::some_action(changes, GovChangeAction::Changed);
    let a = push_if(Seq::empty(), added, "add_def"@);
    let b = push_if(a, gone, "remove_def"@);
    let c = push_if(b, other, "replace_def"@);
    let d = push_if(c, t.defaults, "set_defaults"@);
    let e = push_if(d, t.refs, "set_manifest_refs"@);
    let f = push_if(e, t.module_bindings, "set_module_bindings"@);
    let g = push_if(f, t.routing_events, "set_routing_events"@);
    let h = push_if(g, t.routing_inboxes, "set_routing_inboxes"@);
    lemma_pushed(Seq::empty(), added, "add_def"@, x);
    lemma_pushed(a, gone, "remove_def"@, x);
    lemma_pushed(b, other, "replace_def"@, x);
    lemma_pushed(c, t.defaults, "set_defaults"@, x);
    lemma_pushed(d, t.refs, "set_manifest_refs"@, x);
    lemma_pushed(e, t.module_bindings, "set_module_bindings"@, x);
    lemma_pushed(f, t.routing_events, "set_routing_events"@, x);
    lemma_pushed(g, t.routing_inboxes, "set_routing_inboxes"@, x);
    lemma_pushed(h, t.secrets, "set_secrets"@, x);
    assert(!Seq::<Seq<char>>::empty().contains(x));
}

/// A summary names a section if and only if it differs, and an operation if and only if there is
/// something for it to do: definitions to add, to remove or to replace, or a section to set.
pub proof fn lemma_summary_names_what_differs(
    s: GovPatchSummary,
    base: ManifestView,
    base_s: ManifestSections,
    next: ManifestView,
    next_s: ManifestSections,
    base_hash: Option<Seq<char>>,
    patch_hash: Seq<char>,
    x: Seq<char>,
)
    requires
        is_summary(s, base, base_s, next, next_s, base_hash, patch_hash),
    ensures
        ({
            let changes = changes_view(s.def_changes@);
            let refs = changes.len() > 0;
            let secrets = secrets_view(base_s.secrets@) != secrets_view(next_s.secrets@);
            let events = subscriptions(base) != subscriptions(next);
            &&& texts_view(s.manifest_sections@).contains(x) <==> {
                ||| base_s.defaults@ != next_s.defaults@ && x == "defaults"@
                ||| refs && x == "manifest_refs"@
                ||| base_s.module_bindings@ != next_s.module_bindings@ && x == "module_bindings"@
                ||| events && x == "routing_events"@
                ||| base_s.routing_inboxes@ != next_s.routing_inboxes@ && x == "routing_inboxes"@
                ||| secrets && x == "secrets"@
            }
            &&& texts_view(s.ops@).contains(x) <==> {
                ||| x == "add_def"@ && exists|i: int|
                    0 <= i < changes.len() && (#[trigger] changes[i]).2 == GovChangeAction::Added
                ||| x == "remove_def"@ && exists|i: int|
                    0 <= i < changes.len() && (#[trigger] changes[i]).2 == GovChangeAction::Removed
                ||| x == "replace_def"@ && exists|i: int|
                    0 <= i < changes.len() && (#[trigger] changes[i]).2 == GovChangeAction::Changed
                ||| base_s.defaults@ != next_s.defaults@ && x == "set_defaults"@
                ||| refs && x == "set_manifest_refs"@
                ||| base_s.module_bindings@ != next_s.module_bindings@ && x
                    == "set_module_bindings"@
                ||| events && x == "set_routing_events"@
                ||| base_s.routing_inboxes@ != next_s.routing_inboxes@ && x
                    == "set_routing_inboxes"@
                ||| secrets && x == "set_secrets"@
            }
        }),
{
    let t = super::touched(base, base_s, next, next_s);
    let changes = changes_view(s.def_changes@);
    lemma_section_words(t, x);
    lemma_op_words(changes, t, x);
    if changes.len() > 0 {
        assert(changes.contains(changes[0]));
    }
    if t.refs {
        let c = choose|c: ChangeView| #[trigger]
            super::is_change(
                c,
                base,
                secrets_view(base_s.secrets@),
                next,
                secrets_view(next_s.secrets@),
            );
        assert(changes.contains(c));
    }
}

/// A decision is read as it is tagged: `approve` approves and `reject` rejects, and nothing else is
/// a decision. So are actions, ledgers and differences.
pub proof fn lemma_tags_are_read(t: CborTree, what: Seq<char>)
    ensures
        unit_tag(t) is Err ==> tagged(t, approval_decisions(), what) is Err,
        unit_tag(t) matches Ok(tag) ==> {
            &&& tag == "approve"@ ==> tagged(t, approval_decisions(), what) == Ok::<
                GovApprovalDecision,
                Seq<char>,
            >(GovApprovalDecision::Approve)
            &&& tag == "reject"@ ==> tagged(t, approval_decisions(), what) == Ok::<
                GovApprovalDecision,
                Seq<char>,
            >(GovApprovalDecision::Reject)
            &&& tag != "approve"@ && tag != "reject"@ ==> tagged(t, approval_decisions(), what)
                is Err
            &&& tag == "added"@ ==> tagged(t, change_actions(), what) == Ok::<
                GovChangeAction,
                Seq<char>,
            >(GovChangeAction::Added) && tagged(t, delta_kinds(), what) == Ok::<
                GovDeltaKind,
                Seq<char>,
            >(GovDeltaKind::Added)
            &&& tag == "removed"@ ==> tagged(t, change_actions(), what) == Ok::<
                GovChangeAction,
                Seq<char>,
            >(GovChangeAction::Removed) && tagged(t, delta_kinds(), what) == Ok::<
                GovDeltaKind,
                Seq<char>,
            >(GovDeltaKind::Removed)
            &&& tag == "changed"@ ==> tagged(t, change_actions(), what) == Ok::<
                GovChangeAction,
                Seq<char>,
            >(GovChangeAction::Changed) && tagged(t, delta_kinds(), what) == Ok::<
                GovDeltaKind,
                Seq<char>,
            >(GovDeltaKind::Changed)
            &&& tag == "capability"@ ==> tagged(t, ledger_kinds(), what) == Ok::<
                GovLedgerKind,
                Seq<char>,
            >(GovLedgerKind::Capability)
            &&& tag == "policy"@ ==> tagged(t, ledger_kinds(), what) == Ok::<
                GovLedgerKind,
                Seq<char>,
            >(GovLedgerKind::Policy)
        },
{
    reveal_strlit("approve");
    reveal_strlit("reject");
    reveal_strlit("added");
    reveal_strlit("removed");
    reveal_strlit("changed");
    reveal_strlit("capability");
    reveal_strlit("policy");
    assert("approve"@[0] == 'a' && "reject"@[0] == 'r');
    assert("added"@[0] == 'a' && "removed"@[0] == 'r' && "changed"@[0] == 'c');
    assert("capability"@[0] == 'c' && "policy"@[0] == 'p');
    if let Ok(tag) = unit_tag(t) {
        reveal_with_fuel(tag_lookup, 4);
        let a = approval_decisions();
        assert(a.drop_first()[0] == a[1]);
        let b = change_actions();
        assert(b.drop_first()[0] == b[1] && b.drop_first().drop_first()[0] == b[2]);
        let c = delta_kinds();
        assert(c.drop_first()[0] == c[1] && c.drop_first().drop_first()[0] == c[2]);
        let d = ledger_kinds();
        assert(d.drop_first()[0] == d[1]);
    }
}

/// A patch comes by its digest, as its bytes, as a document or by the blob that holds it, as its
/// tag says, and with nothing but what stands under that tag.
pub proof fn lemma_patch_input_is_read(t: CborTree, tag: Seq<char>, inner: Option<CborTree>)
    requires
        variant_of(t) == Ok::<(Seq<char>, Option<CborTree>), Seq<char>>((tag, inner)),
    ensures
        tag == "hash"@ ==> (patch_input_of(t) matches Ok(v) ==> v matches InputView::PatchHash(h)
            && inner == Some(CborTree::Text(h))),
        tag == "patch_cbor"@ ==> (inner matches Some(CborTree::Bytes(b)) ==> patch_input_of(t)
            == Ok::<InputView, Seq<char>>(InputView::PatchCbor(b))),
        tag == "patch_doc_json"@ ==> (inner matches Some(CborTree::Bytes(b)) ==> patch_input_of(t)
            == Ok::<InputView, Seq<char>>(InputView::PatchDocJson(b))),
        tag == "patch_blob_ref"@ ==> (patch_input_of(t) matches Ok(v) ==> v is PatchBlobRef),
        tag != "hash"@ && tag != "patch_cbor"@ && tag != "patch_doc_json"@ && tag
            != "patch_blob_ref"@ ==> patch_input_of(t) is Err,
        inner is None ==> patch_input_of(t) is Err,
{
    reveal_strlit("hash");
    reveal_strlit("patch_cbor");
    reveal_strlit("patch_doc_json");
    reveal_strlit("patch_blob_ref");
    assert("hash"@.len() == 4 && "patch_cbor"@.len() == 10);
    assert("patch_doc_json"@.len() == 14 && "patch_blob_ref"@.len() == 14);
    assert("patch_doc_json"@[6] == 'd' && "patch_blob_ref"@[6] == 'b');
}

/// A base that is named must be that of the patch; where none is named, that of the patch counts.
pub proof fn lemma_base_must_match(named: Option<Seq<char>>, actual: Option<Seq<char>>)
    ensures
        settled_base(named, actual) is Ok <==> named is None || named == actual,
        settled_base(named, actual) matches Ok(b) ==> b == actual,
{
}

/// A proposal is of the prepared patch, by its digest, with its summary and under the description
/// that was given.
pub proof fn lemma_proposal_is_of_the_patch(
    r: Result<GovProposeParams, KernelError>,
    manifest_base: Option<HashRef>,
    description: Option<String>,
    prepared: PreparedPatch,
)
    requires
        is_propose_params(r, manifest_base, description, prepared),
    ensures
        r is Ok <==> manifest_base is None || option_hash(manifest_base) == option_hash(
            prepared.base_manifest_hash,
        ),
        r matches Ok(p) ==> (p.patch matches GovPatchInput::PatchHash(h) && h@
            == prepared.patch_hash@) && p.summary == prepared.summary && p.description
            == description && option_hash(p.manifest_base) == option_hash(
            prepared.base_manifest_hash,
        ),
{
}

/// A patch that was stored is under the reference that was returned, as the codec wrote it, unless
/// that digest was taken by other bytes; everything else in the store is as it was.
pub proof fn lemma_stored_patch_is_there<S: Store<AirNode>, C: PatchCodec>(
    h: HashRef,
    before: S,
    after: S,
    codec: &C,
    patch: ManifestPatch,
)
    requires
        patch_stored(Ok(h), before, after, codec, patch),
    ensures
        exists|b: Vec<u8>| #[trigger]
            call_ensures(C::encode_patch, (codec, &patch), Ok::<Vec<u8>, String>(b)) && ref_digest(h)
                == sha256(b@) && after.blobs().contains_key(ref_digest(h)) && (
            !before.blobs().contains_key(ref_digest(h)) ==> after.blobs()[ref_digest(h)] == b@),
        forall|k: Seq<u8>| #[trigger]
            before.blobs().contains_key(k) ==> after.blobs().contains_key(k) && after.blobs()[k]
                == before.blobs()[k],
        after.nodes() == before.nodes(),
{
    let told = choose|told: Result<Vec<u8>, String>| #[trigger]
        call_ensures(C::encode_patch, (codec, &patch), told) && match told {
            Err(t) => false,
            Ok(b) => h@ == hash_text(sha256(b@)) && after.blobs() == crate::store::or_insert(
                before.blobs(),
                sha256(b@),
                b@,
            ),
        };
    let b = told->Ok_0;
    reveal_strlit("sha256:");
    lemma_hex_text(sha256(b@));
    assert(hash_text(sha256(b@)).skip(7) =~= hex_text(sha256(b@)));
    assert(call_ensures(C::encode_patch, (codec, &patch), Ok::<Vec<u8>, String>(b)));
}

} // verus!
