//! The effects by which a world changes its own manifest.
use vstd::prelude::*;

use crate::air::{refs_view, AirNode, Builtins, Manifest, ManifestView, NamedRef, NodeKind,
    RefView, RoutingEvent, RoutingView};
use crate::bytes::bytes_eq;
use crate::cbor::{get_text_entry, lemma_map_tree, text_entry, CborTree, CborValue};
use crate::error::{is_manifest_error, KernelError};
use crate::governance::ManifestPatch;
use crate::governance_utils::{canonicalize_patch, diff_named_refs, exact_diffs, normalized,
    ref_change, schema_unread, tells, NamedRefDiff, NamedRefDiffKind};
use crate::hash::{hash_fault, hash_text, hex_bytes, is_hash_text, sha256, ContentHash, HashRef};
use crate::patch_doc::{base_manifest_hash, compile_patch_document, document_compiled, head_fault,
    PatchDocument};
use crate::store::{blob_fails, blob_write_fails, or_insert, read_fails, Store, StoreError,
    StoreNode};
use crate::text::{decimal, decimal_text, join2, join3, join4, lemma_lex_irreflexive,
    lemma_lex_total, lemma_lex_transitive, lex_lt, str_eq, str_lt};
use crate::variant::{decode_bytes_variant, decode_text_variant, decode_unit_tag,
    decode_variant_value, unit_tag, variant_bytes, variant_of, variant_text};

pub mod laws;
pub mod prepare_laws;

verus! {

/// A patch as it comes with a proposal.
#[derive(Debug)]
pub enum GovPatchInput {
    PatchHash(HashRef),
    PatchCbor(Vec<u8>),
    PatchDocJson(Vec<u8>),
    PatchBlobRef(GovPatchBlobRef),
}

/// A patch in the store, with its format.
#[derive(Debug)]
pub struct GovPatchBlobRef {
    pub blob_ref: HashRef,
    pub format: String,
}

/// The model of a patch input.
pub enum InputView {
    PatchHash(Seq<char>),
    PatchCbor(Seq<u8>),
    PatchDocJson(Seq<u8>),
    PatchBlobRef(Seq<char>, Seq<char>),
}

impl View for GovPatchInput {
    type V = InputView;

    open spec fn view(&self) -> InputView {
        match *self {
            GovPatchInput::PatchHash(h) => InputView::PatchHash(h@),
            GovPatchInput::PatchCbor(b) => InputView::PatchCbor(b@),
            GovPatchInput::PatchDocJson(b) => InputView::PatchDocJson(b@),
            GovPatchInput::PatchBlobRef(r) => InputView::PatchBlobRef(r.blob_ref@, r.format@),
        }
    }
}

/// What happens to a definition.
#[derive(Clone, Copy, Debug, PartialEq, Eq, Structural)]
pub enum GovChangeAction {
    Added,
    Removed,
    Changed,
}

/// The decision on a proposal.
#[derive(Clone, Copy, Debug, PartialEq, Eq, Structural)]
pub enum GovApprovalDecision {
    Approve,
    Reject,
}

/// What a ledger is about.
#[derive(Clone, Copy, Debug, PartialEq, Eq, Structural)]
pub enum GovLedgerKind {
    Capability,
    Policy,
}

/// What happens to an item of a ledger.
#[derive(Clone, Copy, Debug, PartialEq, Eq, Structural)]
pub enum GovDeltaKind {
    Added,
    Removed,
    Changed,
}

/// The variant that a tag without a value stands for.
pub open spec fn tagged<T>(
    t: CborTree,
    table: Seq<(Seq<char>, T)>,
    what: Seq<char>,
) -> Result<T, Seq<char>> {
    match unit_tag(t) {
        Err(e) => Err(e),
        Ok(tag) => tag_lookup(tag, table, what),
    }
}

/// The value that a table has for a tag.
pub open spec fn tag_lookup<T>(
    tag: Seq<char>,
    table: Seq<(Seq<char>, T)>,
    what: Seq<char>,
) -> Result<T, Seq<char>>
    decreases table.len(),
{
    if table.len() == 0 {
        Err("unknown "@ + what + " tag '"@ + tag + "'"@)
    } else if table[0].0 == tag {
        Ok(table[0].1)
    } else {
        tag_lookup(tag, table.drop_first(), what)
    }
}

fn look_up<T: Copy>(tag: String, table: &[(&'static str, T)], what: &str) -> (r: Result<T, String>)
    ensures
        match (r, tag_lookup(tag@, table_view(table@), what@)) {
            (Ok(a), Ok(b)) => a == b,
            (Err(e), Err(t)) => e@ == t,
            _ => false,
        },
{
    let ghost all = table_view(table@);
    let mut i: usize = 0;
    assert(all.skip(0) =~= all);
    while i < table.len()
        invariant
            i <= table@.len(),
            all == table_view(table@),
            tag_lookup(tag@, all, what@) == tag_lookup(tag@, all.skip(i as int), what@),
        decreases table@.len() - i,
    {
        assert(all.skip(i as int)[0] == (table@[i as int].0@, table@[i as int].1));
        if str_eq(table[i].0, tag.as_str()) {
            return Ok(table[i].1);
        }
        assert(all.skip(i as int).drop_first() =~= all.skip(i + 1));
        i += 1;
    }
    let head = join4("unknown ", what, " tag '", tag.as_str());
    Err(join2(head.as_str(), "'"))
}

pub open spec fn table_view<T>(table: Seq<(&'static str, T)>) -> Seq<(Seq<char>, T)> {
    Seq::new(table.len(), |i: int| (table[i].0@, table[i].1))
}

pub open spec fn change_actions() -> Seq<(Seq<char>, GovChangeAction)> {
    seq![
        ("added"@, GovChangeAction::Added),
        ("removed"@, GovChangeAction::Removed),
        ("changed"@, GovChangeAction::Changed),
    ]
}

pub fn decode_change_action(value: CborValue) -> (r: Result<GovChangeAction, String>)
    ensures
        match (r, tagged(value@, change_actions(), "GovChangeAction"@)) {
            (Ok(a), Ok(b)) => a == b,
            (Err(e), Err(t)) => e@ == t,
            _ => false,
        },
{
    let table = [
        ("added", GovChangeAction::Added),
        ("removed", GovChangeAction::Removed),
        ("changed", GovChangeAction::Changed),
    ];
    assert(table_view(table@) =~= change_actions());
    match decode_unit_tag(value) {
        Err(e) => Err(e),
        Ok(tag) => look_up(tag, &table, "GovChangeAction"),
    }
}

pub open spec fn approval_decisions() -> Seq<(Seq<char>, GovApprovalDecision)> {
    seq![("approve"@, GovApprovalDecision::Approve), ("reject"@, GovApprovalDecision::Reject)]
}

pub fn decode_approval_decision(value: CborValue) -> (r: Result<GovApprovalDecision, String>)
    ensures
        match (r, tagged(value@, approval_decisions(), "GovApprovalDecision"@)) {
            (Ok(a), Ok(b)) => a == b,
            (Err(e), Err(t)) => e@ == t,
            _ => false,
        },
{
    let table = [
        ("approve", GovApprovalDecision::Approve),
        ("reject", GovApprovalDecision::Reject),
    ];
    assert(table_view(table@) =~= approval_decisions());
    match decode_unit_tag(value) {
        Err(e) => Err(e),
        Ok(tag) => look_up(tag, &table, "GovApprovalDecision"),
    }
}

pub open spec fn ledger_kinds() -> Seq<(Seq<char>, GovLedgerKind)> {
    seq![("capability"@, GovLedgerKind::Capability), ("policy"@, GovLedgerKind::Policy)]
}

pub fn decode_ledger_kind(value: CborValue) -> (r: Result<GovLedgerKind, String>)
    ensures
        match (r, tagged(value@, ledger_kinds(), "GovLedgerKind"@)) {
            (Ok(a), Ok(b)) => a == b,
            (Err(e), Err(t)) => e@ == t,
            _ => false,
        },
{
    let table = [("capability", GovLedgerKind::Capability), ("policy", GovLedgerKind::Policy)];
    assert(table_view(table@) =~= ledger_kinds());
    match decode_unit_tag(value) {
        Err(e) => Err(e),
        Ok(tag) => look_up(tag, &table, "GovLedgerKind"),
    }
}

pub open spec fn delta_kinds() -> Seq<(Seq<char>, GovDeltaKind)> {
    seq![
        ("added"@, GovDeltaKind::Added),
        ("removed"@, GovDeltaKind::Removed),
        ("changed"@, GovDeltaKind::Changed),
    ]
}

pub fn decode_delta_kind(value: CborValue) -> (r: Result<GovDeltaKind, String>)
    ensures
        match (r, tagged(value@, delta_kinds(), "GovDeltaKind"@)) {
            (Ok(a), Ok(b)) => a == b,
            (Err(e), Err(t)) => e@ == t,
            _ => false,
        },
{
    let table = [
        ("added", GovDeltaKind::Added),
        ("removed", GovDeltaKind::Removed),
        ("changed", GovDeltaKind::Changed),
    ];
    assert(table_view(table@) =~= delta_kinds());
    match decode_unit_tag(value) {
        Err(e) => Err(e),
        Ok(tag) => look_up(tag, &table, "GovDeltaKind"),
    }
}

/// The blob and the format in a reference to a patch.
pub open spec fn blob_ref_of(t: CborTree) -> Result<(Seq<char>, Seq<char>), Seq<char>> {
    match t {
        CborTree::Mapping(m) => match (text_entry(m, "blob_ref"@), text_entry(m, "format"@)) {
            (None, _) => Err("missing field `blob_ref`"@),
            (_, None) => Err("missing field `format`"@),
            (Some(CborTree::Text(h)), Some(CborTree::Text(f))) => if is_hash_text(h) {
                Ok((h, f))
            } else {
                Err(hash_fault(h))
            },
            _ => Err("invalid type of a field"@),
        },
        _ => Err("invalid type, expected a patch blob reference"@),
    }
}

pub fn decode_blob_ref(value: &CborValue) -> (r: Result<GovPatchBlobRef, String>)
    ensures
        match (r, blob_ref_of(value@)) {
            (Ok(b), Ok((h, f))) => b.blob_ref@ == h && b.format@ == f,
            (Err(e), Err(t)) => e@ == t,
            _ => false,
        },
{
    let entries = match value {
        CborValue::Mapping(entries) => entries,
        _ => {
            return Err("invalid type, expected a patch blob reference".to_owned());
        },
    };
    proof {
        lemma_map_tree(*value);
    }
    let h = match get_text_entry(entries, "blob_ref") {
        Some(v) => v,
        None => {
            return Err("missing field `blob_ref`".to_owned());
        },
    };
    let f = match get_text_entry(entries, "format") {
        Some(v) => v,
        None => {
            return Err("missing field `format`".to_owned());
        },
    };
    match (h, f) {
        (CborValue::Text(h), CborValue::Text(f)) => match HashRef::new(h.clone()) {
            Ok(blob_ref) => Ok(GovPatchBlobRef { blob_ref, format: f.clone() }),
            Err(e) => Err(e.message()),
        },
        _ => Err("invalid type of a field".to_owned()),
    }
}

/// The patch input that a CBOR value stands for.
pub open spec fn patch_input_of(t: CborTree) -> Result<InputView, Seq<char>> {
    match variant_of(t) {
        Err(e) => Err(e),
        Ok((tag, inner)) => if tag == "hash"@ {
            match variant_text(tag, inner) {
                Err(e) => Err(e),
                Ok(h) => if is_hash_text(h) {
                    Ok(InputView::PatchHash(h))
                } else {
                    Err(hash_fault(h))
                },
            }
        } else if tag == "patch_cbor"@ {
            match variant_bytes(tag, inner) {
                Err(e) => Err(e),
                Ok(b) => Ok(InputView::PatchCbor(b)),
            }
        } else if tag == "patch_doc_json"@ {
            match variant_bytes(tag, inner) {
                Err(e) => Err(e),
                Ok(b) => Ok(InputView::PatchDocJson(b)),
            }
        } else if tag == "patch_blob_ref"@ {
            match inner {
                None => Err("variant 'patch_blob_ref' missing value"@),
                Some(v) => match blob_ref_of(v) {
                    Err(e) => Err(e),
                    Ok((h, f)) => Ok(InputView::PatchBlobRef(h, f)),
                },
            }
        } else {
            Err("unknown GovPatchInput tag '"@ + tag + "'"@)
        },
    }
}

pub fn decode_patch_input(value: CborValue) -> (r: Result<GovPatchInput, String>)
    ensures
        match (r, patch_input_of(value@)) {
            (Ok(a), Ok(b)) => a@ == b,
            (Err(e), Err(t)) => e@ == t,
            _ => false,
        },
{
    let (tag, inner) = match decode_variant_value(value) {
        Ok(x) => x,
        Err(e) => {
            return Err(e);
        },
    };
    if str_eq(tag.as_str(), "hash") {
        match decode_text_variant(tag.as_str(), inner) {
            Err(e) => Err(e),
            Ok(text) => match HashRef::new(text) {
                Ok(h) => Ok(GovPatchInput::PatchHash(h)),
                Err(e) => Err(e.message()),
            },
        }
    } else if str_eq(tag.as_str(), "patch_cbor") {
        match decode_bytes_variant(tag.as_str(), inner) {
            Err(e) => Err(e),
            Ok(b) => Ok(GovPatchInput::PatchCbor(b)),
        }
    } else if str_eq(tag.as_str(), "patch_doc_json") {
        match decode_bytes_variant(tag.as_str(), inner) {
            Err(e) => Err(e),
            Ok(b) => Ok(GovPatchInput::PatchDocJson(b)),
        }
    } else if str_eq(tag.as_str(), "patch_blob_ref") {
        match inner {
            None => Err("variant 'patch_blob_ref' missing value".to_owned()),
            Some(v) => match decode_blob_ref(&v) {
                Err(e) => Err(e),
                Ok(b) => Ok(GovPatchInput::PatchBlobRef(b)),
            },
        }
    } else {
        Err(join3("unknown GovPatchInput tag '", tag.as_str(), "'"))
    }
}

/// A change of a definition.
#[derive(Debug)]
pub struct GovDefChange {
    pub kind: String,
    pub name: String,
    pub action: GovChangeAction,
}

/// The model of a change: kind, name and action.
pub type ChangeView = (Seq<char>, Seq<char>, GovChangeAction);

impl View for GovDefChange {
    type V = ChangeView;

    open spec fn view(&self) -> ChangeView {
        (self.kind@, self.name@, self.action)
    }
}

pub open spec fn changes_view(changes: Seq<GovDefChange>) -> Seq<ChangeView> {
    Seq::new(changes.len(), |i: int| changes[i]@)
}

/// The place of an action among changes of one definition.
pub fn change_rank(action: GovChangeAction) -> (r: u8)
    ensures
        r == match action {
            GovChangeAction::Added => 0u8,
            GovChangeAction::Changed => 1u8,
            GovChangeAction::Removed => 2u8,
        },
{
    match action {
        GovChangeAction::Added => 0,
        GovChangeAction::Changed => 1,
        GovChangeAction::Removed => 2,
    }
}

/// The order of changes: by kind, then by name.
pub open spec fn change_lt(a: ChangeView, b: ChangeView) -> bool {
    lex_lt(a.0, b.0) || a.0 == b.0 && lex_lt(a.1, b.1)
}

/// Changes in order, none of a definition that has another one.
pub open spec fn in_order(s: Seq<ChangeView>) -> bool {
    forall|i: int, j: int|
        0 <= i < j < s.len() ==> change_lt(#[trigger] s[i], #[trigger] s[j])
}

proof fn lemma_change_order(a: ChangeView, b: ChangeView, c: ChangeView)
    ensures
        !change_lt(a, a),
        change_lt(a, b) && change_lt(b, c) ==> change_lt(a, c),
        (a.0 == b.0 && a.1 == b.1) || change_lt(a, b) || change_lt(b, a),
{
    lemma_lex_irreflexive(a.0);
    lemma_lex_irreflexive(a.1);
    lemma_lex_total(a.0, b.0);
    lemma_lex_total(a.1, b.1);
    if lex_lt(a.0, b.0) && lex_lt(b.0, c.0) {
        lemma_lex_transitive(a.0, b.0, c.0);
    }
    if lex_lt(a.1, b.1) && lex_lt(b.1, c.1) {
        lemma_lex_transitive(a.1, b.1, c.1);
    }
}

/// Two lists of changes in order that hold the same changes are the same.
pub proof fn lemma_order_determines(a: Seq<ChangeView>, b: Seq<ChangeView>)
    requires
        in_order(a),
        in_order(b),
        forall|x: ChangeView| #[trigger] a.contains(x) <==> b.contains(x),
    ensures
        a == b,
    decreases a.len(),
{
    if a.len() == 0 {
        if b.len() > 0 {
            assert(b.contains(b[0]));
            assert(a.contains(b[0]));
        }
        assert(a =~= b);
    } else {
        assert(a.contains(a[0]));
        assert(b.contains(a[0]));
        let j = choose|j: int| 0 <= j < b.len() && b[j] == a[0];
        assert(b.contains(b[0]));
        assert(a.contains(b[0]));
        let i = choose|i: int| 0 <= i < a.len() && a[i] == b[0];
        if i > 0 && j > 0 {
            assert(change_lt(a[0], a[i]));
            assert(change_lt(b[0], b[j]));
            lemma_change_order(a[0], b[0], a[0]);
        }
        assert(a[0] == b[0]);
        let ra = a.drop_first();
        let rb = b.drop_first();
        assert forall|x: ChangeView| #[trigger] ra.contains(x) <==> rb.contains(x) by {
            lemma_change_order(a[0], a[0], a[0]);
            if ra.contains(x) {
                let k = choose|k: int| 0 <= k < ra.len() && ra[k] == x;
                assert(a[k + 1] == x);
                assert(change_lt(a[0], a[k + 1]));
                assert(a.contains(x));
                assert(b.contains(x));
                let m = choose|m: int| 0 <= m < b.len() && b[m] == x;
                assert(m != 0);
                assert(rb[m - 1] == x);
            }
            if rb.contains(x) {
                let k = choose|k: int| 0 <= k < rb.len() && rb[k] == x;
                assert(b[k + 1] == x);
                assert(change_lt(b[0], b[k + 1]));
                assert(b.contains(x));
                assert(a.contains(x));
                let m = choose|m: int| 0 <= m < a.len() && a[m] == x;
                assert(m != 0);
                assert(ra[m - 1] == x);
            }
        }
        assert forall|p: int, q: int| 0 <= p < q < ra.len() implies change_lt(
            #[trigger] ra[p],
            #[trigger] ra[q],
        ) by {
            assert(change_lt(a[p + 1], a[q + 1]));
        }
        assert forall|p: int, q: int| 0 <= p < q < rb.len() implies change_lt(
            #[trigger] rb[p],
            #[trigger] rb[q],
        ) by {
            assert(change_lt(b[p + 1], b[q + 1]));
        }
        lemma_order_determines(ra, rb);
        assert(a =~= seq![a[0]] + ra);
        assert(b =~= seq![b[0]] + rb);
    }
}

fn comes_before(a: &GovDefChange, b: &GovDefChange) -> (r: bool)
    ensures
        r == change_lt(a@, b@),
{
    str_lt(a.kind.as_str(), b.kind.as_str()) || (str_eq(a.kind.as_str(), b.kind.as_str())
        && str_lt(a.name.as_str(), b.name.as_str()))
}

/// Puts a change in its place.
fn insert_change(changes: &mut Vec<GovDefChange>, c: GovDefChange)
    requires
        in_order(changes_view(old(changes)@)),
        forall|i: int|
            0 <= i < old(changes)@.len() ==> !((#[trigger] old(changes)@[i]).kind@ == c.kind@
                && old(changes)@[i].name@ == c.name@),
    ensures
        in_order(changes_view(final(changes)@)),
        forall|x: ChangeView| #[trigger]
            changes_view(final(changes)@).contains(x) <==> changes_view(old(changes)@).contains(x)
                || x == c@,
{
    let ghost s = changes_view(changes@);
    let ghost x = c@;
    let n: usize = changes.len();
    let mut i: usize = 0;
    while i < n && comes_before(&changes[i], &c)
        invariant
            i <= n,
            n == changes@.len(),
            *changes == *old(changes),
            s == changes_view(changes@),
            forall|k: int| 0 <= k < i ==> change_lt(#[trigger] s[k], c@),
        decreases n - i,
    {
        assert(s[i as int] == changes@[i as int]@);
        i += 1;
    }
    proof {
        if i < n {
            assert(s[i as int] == changes@[i as int]@);
            lemma_change_order(s[i as int], x, x);
            assert(change_lt(x, s[i as int]));
            assert forall|k: int| i <= k < n implies change_lt(x, #[trigger] s[k]) by {
                if k > i {
                    assert(change_lt(s[i as int], s[k]));
                    lemma_change_order(x, s[i as int], s[k]);
                }
            }
        }
    }
    changes.insert(i, c);
    proof {
        let t = changes_view(changes@);
        assert(t =~= s.insert(i as int, x));
        assert forall|a: int, b: int| 0 <= a < b < t.len() implies change_lt(
            #[trigger] t[a],
            #[trigger] t[b],
        ) by {
            let sa = if a < i {
                a
            } else {
                a - 1
            };
            let sb = if b < i {
                b
            } else {
                b - 1
            };
            if a != i && b != i {
                assert(change_lt(s[sa], s[sb]));
            }
        }
        assert forall|y: ChangeView| #[trigger] t.contains(y) <==> s.contains(y) || y == x by {
            if t.contains(y) {
                let k = choose|k: int| 0 <= k < t.len() && t[k] == y;
                if k < i {
                    assert(s[k] == y);
                } else if k > i {
                    assert(s[k - 1] == y);
                }
            }
            if s.contains(y) {
                let k = choose|k: int| 0 <= k < s.len() && s[k] == y;
                if k < i {
                    assert(t[k] == y);
                } else {
                    assert(t[k + 1] == y);
                }
            }
            if y == x {
                assert(t[i as int] == x);
            }
        }
    }
}

/// The action that a difference is.
pub open spec fn action_of(kind: NamedRefDiffKind) -> GovChangeAction {
    match kind {
        NamedRefDiffKind::Added => GovChangeAction::Added,
        NamedRefDiffKind::Removed => GovChangeAction::Removed,
        NamedRefDiffKind::Changed => GovChangeAction::Changed,
    }
}

/// Whether a change is one between two lists of references.
pub open spec fn is_ref_change(
    x: ChangeView,
    kind: Seq<char>,
    base: Seq<RefView>,
    next: Seq<RefView>,
) -> bool {
    x.0 == kind && match ref_change(base, next, x.1) {
        Some(d) => x.2 == action_of(d),
        None => false,
    }
}

/// Adds the changes between two lists of references; says whether there are any.
fn push_named_ref_changes(
    kind: &str,
    base: &Vec<NamedRef>,
    next: &Vec<NamedRef>,
    changes: &mut Vec<GovDefChange>,
) -> (r: bool)
    requires
        in_order(changes_view(old(changes)@)),
        forall|x: ChangeView| #[trigger]
            changes_view(old(changes)@).contains(x) ==> x.0 != kind@,
    ensures
        in_order(changes_view(final(changes)@)),
        forall|x: ChangeView| #[trigger]
            changes_view(final(changes)@).contains(x) <==> changes_view(old(changes)@).contains(x)
                || is_ref_change(x, kind@, refs_view(base@), refs_view(next@)),
        r <==> exists|x: ChangeView| #[trigger]
            is_ref_change(x, kind@, refs_view(base@), refs_view(next@)),
{
    let diffs = diff_named_refs(base, next);
    let ghost b = refs_view(base@);
    let ghost m = refs_view(next@);
    let ghost start = changes_view(changes@);
    let mut i: usize = 0;
    while i < diffs.len()
        invariant
            i <= diffs@.len(),
            b == refs_view(base@),
            m == refs_view(next@),
            exact_diffs(diffs@, b, m),
            start == changes_view(old(changes)@),
            forall|x: ChangeView| #[trigger] start.contains(x) ==> x.0 != kind@,
            in_order(changes_view(changes@)),
            forall|x: ChangeView| #[trigger]
                changes_view(changes@).contains(x) <==> start.contains(x) || noted(
                    x,
                    kind@,
                    diffs@,
                    i as int,
                ),
        decreases diffs@.len() - i,
    {
        let action = match diffs[i].change {
            NamedRefDiffKind::Added => GovChangeAction::Added,
            NamedRefDiffKind::Removed => GovChangeAction::Removed,
            NamedRefDiffKind::Changed => GovChangeAction::Changed,
        };
        let c = GovDefChange { kind: kind.to_owned(), name: diffs[i].name.clone(), action };
        proof {
            let s = changes_view(changes@);
            assert forall|k: int| 0 <= k < changes@.len() implies !((
            #[trigger] changes@[k]).kind@ == c.kind@ && changes@[k].name@ == c.name@) by {
                let y = changes@[k]@;
                assert(s[k] == y);
                assert(s.contains(y));
                if noted(y, kind@, diffs@, i as int) {
                    let q = choose|q: int|
                        0 <= q < i && y == (kind@, (#[trigger] diffs@[q]).name@, action_of(
                            diffs@[q].change,
                        ));
                    assert(diffs@[q].name@ != diffs@[i as int].name@);
                }
            }
        }
        let ghost before = changes_view(changes@);
        let ghost cv = c@;
        insert_change(changes, c);
        proof {
            assert forall|x: ChangeView| #[trigger]
                changes_view(changes@).contains(x) <==> start.contains(x) || noted(
                    x,
                    kind@,
                    diffs@,
                    i + 1,
                ) by {
                assert(changes_view(changes@).contains(x) <==> before.contains(x) || x == cv);
                if noted(x, kind@, diffs@, i + 1) && !noted(x, kind@, diffs@, i as int) {
                    let q = choose|q: int|
                        0 <= q < i + 1 && x == (kind@, (#[trigger] diffs@[q]).name@, action_of(
                            diffs@[q].change,
                        ));
                    assert(q == i);
                }
                if noted(x, kind@, diffs@, i as int) {
                    let q = choose|q: int|
                        0 <= q < i && x == (kind@, (#[trigger] diffs@[q]).name@, action_of(
                            diffs@[q].change,
                        ));
                    assert(0 <= q < i + 1);
                }
                if x == cv {
                    assert(x == (kind@, diffs@[i as int].name@, action_of(
                        diffs@[i as int].change,
                    )));
                }
            }
        }
        i += 1;
    }
    proof {
        assert forall|x: ChangeView| noted(x, kind@, diffs@, diffs@.len() as int)
            <==> #[trigger] is_ref_change(x, kind@, b, m) by {
            if noted(x, kind@, diffs@, diffs@.len() as int) {
                let q = choose|q: int|
                    0 <= q < diffs@.len() && x == (kind@, (#[trigger] diffs@[q]).name@, action_of(
                        diffs@[q].change,
                    ));
                assert(ref_change(b, m, diffs@[q].name@) == Some(diffs@[q].change));
            }
            if is_ref_change(x, kind@, b, m) {
                assert(ref_change(b, m, x.1) is Some);
                assert(tells(diffs@, x.1, ref_change(b, m, x.1)->0));
                let q = choose|q: int|
                    0 <= q < diffs@.len() && (#[trigger] diffs@[q]).name@ == x.1
                        && diffs@[q].change == ref_change(b, m, x.1)->0;
                assert(x == (kind@, diffs@[q].name@, action_of(diffs@[q].change)));
            }
        }
        if diffs@.len() > 0 {
            let x = (kind@, diffs@[0].name@, action_of(diffs@[0].change));
            assert(noted(x, kind@, diffs@, diffs@.len() as int));
            assert(is_ref_change(x, kind@, b, m));
        }
    }
    diffs.len() > 0
}

/// Whether a change is one of the first `n` differences.
spec fn noted(x: ChangeView, kind: Seq<char>, diffs: Seq<NamedRefDiff>, n: int) -> bool {
    exists|q: int|
        0 <= q < n && x == (kind, (#[trigger] diffs[q]).name@, action_of(diffs[q].change))
}

/// A secret in a manifest: a reference, or a declaration with its canonical encoding.
#[derive(Debug)]
pub enum SecretEntry {
    Ref(NamedRef),
    Decl { alias: String, version: u64, bytes: Vec<u8> },
}

/// The model of a secret.
pub enum SecretView {
    Ref(RefView),
    Decl { alias: Seq<char>, version: u64, bytes: Seq<u8> },
}

impl View for SecretEntry {
    type V = SecretView;

    open spec fn view(&self) -> SecretView {
        match *self {
            SecretEntry::Ref(r) => SecretView::Ref(r@),
            SecretEntry::Decl { alias, version, bytes } => SecretView::Decl {
                alias: alias@,
                version,
                bytes: bytes@,
            },
        }
    }
}

pub open spec fn secrets_view(s: Seq<SecretEntry>) -> Seq<SecretView> {
    Seq::new(s.len(), |i: int| s[i]@)
}

/// The name and the digest by which a secret is known.
pub open spec fn secret_identity(s: SecretView) -> RefView {
    match s {
        SecretView::Ref(r) => r,
        SecretView::Decl { alias, version, bytes } => (
            alias + "@"@ + decimal(version as nat),
            hash_text(sha256(bytes)),
        ),
    }
}

pub fn secret_entry_identity(entry: &SecretEntry) -> (r: NamedRef)
    ensures
        r@ == secret_identity(entry@),
{
    match entry {
        SecretEntry::Ref(r) => r.clone(),
        SecretEntry::Decl { alias, version, bytes } => NamedRef {
            name: join3(alias.as_str(), "@", decimal_text(*version).as_str()),
            hash: HashRef::of_hash(&ContentHash::of_bytes(bytes.as_slice())),
        },
    }
}

pub open spec fn secret_refs(s: Seq<SecretView>) -> Seq<RefView> {
    Seq::new(s.len(), |i: int| secret_identity(s[i]))
}

fn identify_secrets(secrets: &Vec<SecretEntry>) -> (r: Vec<NamedRef>)
    ensures
        refs_view(r@) == secret_refs(secrets_view(secrets@)),
{
    let mut out: Vec<NamedRef> = Vec::new();
    let mut i: usize = 0;
    while i < secrets.len()
        invariant
            i <= secrets@.len(),
            out@.len() == i,
            forall|k: int| 0 <= k < i ==> (#[trigger] out@[k])@ == secret_identity(secrets@[k]@),
        decreases secrets@.len() - i,
    {
        out.push(secret_entry_identity(&secrets[i]));
        i += 1;
    }
    assert(refs_view(out@) =~= secret_refs(secrets_view(secrets@)));
    out
}

fn same_secrets(a: &Vec<SecretEntry>, b: &Vec<SecretEntry>) -> (r: bool)
    ensures
        r == (secrets_view(a@) == secrets_view(b@)),
{
    if a.len() != b.len() {
        assert(secrets_view(a@).len() != secrets_view(b@).len());
        return false;
    }
    let mut i: usize = 0;
    while i < a.len()
        invariant
            i <= a@.len(),
            a@.len() == b@.len(),
            forall|k: int| 0 <= k < i ==> (#[trigger] a@[k])@ == b@[k]@,
        decreases a@.len() - i,
    {
        let same = match (&a[i], &b[i]) {
            (SecretEntry::Ref(x), SecretEntry::Ref(y)) => str_eq(x.name.as_str(), y.name.as_str())
                && str_eq(x.hash.as_str(), y.hash.as_str()),
            (
                SecretEntry::Decl { alias: x, version: v, bytes: p },
                SecretEntry::Decl { alias: y, version: w, bytes: q },
            ) => *v == *w && str_eq(x.as_str(), y.as_str()) && bytes_eq(p.as_slice(), q.as_slice()),
            _ => false,
        };
        if !same {
            assert(secrets_view(a@)[i as int] == a@[i as int]@);
            assert(secrets_view(b@)[i as int] == b@[i as int]@);
            return false;
        }
        i += 1;
    }
    assert(secrets_view(a@) =~= secrets_view(b@));
    true
}

/// The parts of a manifest that are carried in their canonical encoding, and its secrets.
#[derive(Debug)]
pub struct ManifestSections {
    pub defaults: Vec<u8>,
    pub routing_inboxes: Vec<u8>,
    pub module_bindings: Vec<u8>,
    pub secrets: Vec<SecretEntry>,
}

/// The subscriptions of a manifest.
pub open spec fn subscriptions(m: ManifestView) -> Seq<RoutingView> {
    match m.routing {
        Some(r) => r,
        None => Seq::empty(),
    }
}

fn same_key_field(a: &Option<String>, b: &Option<String>) -> (r: bool)
    ensures
        r == match (*a, *b) {
            (Some(x), Some(y)) => x@ == y@,
            (None, None) => true,
            _ => false,
        },
{
    match (a, b) {
        (Some(x), Some(y)) => str_eq(x.as_str(), y.as_str()),
        (None, None) => true,
        _ => false,
    }
}

fn same_events(a: &Vec<RoutingEvent>, b: &Vec<RoutingEvent>) -> (r: bool)
    ensures
        r == (Seq::new(a@.len(), |i: int| a@[i]@) == Seq::new(b@.len(), |i: int| b@[i]@)),
{
    let ghost x = Seq::new(a@.len(), |i: int| a@[i]@);
    let ghost y = Seq::new(b@.len(), |i: int| b@[i]@);
    if a.len() != b.len() {
        assert(x.len() != y.len());
        return false;
    }
    let mut i: usize = 0;
    while i < a.len()
        invariant
            i <= a@.len(),
            a@.len() == b@.len(),
            x == Seq::new(a@.len(), |i: int| a@[i]@),
            y == Seq::new(b@.len(), |i: int| b@[i]@),
            forall|k: int| 0 <= k < i ==> (#[trigger] a@[k])@ == b@[k]@,
        decreases a@.len() - i,
    {
        if !(str_eq(a[i].event.as_str(), b[i].event.as_str()) && str_eq(
            a[i].module.as_str(),
            b[i].module.as_str(),
        ) && same_key_field(&a[i].key_field, &b[i].key_field)) {
            assert(x[i as int] == a@[i as int]@);
            assert(y[i as int] == b@[i as int]@);
            return false;
        }
        i += 1;
    }
    assert(x =~= y);
    true
}

fn same_subscriptions(a: &Manifest, b: &Manifest) -> (r: bool)
    ensures
        r == (subscriptions(a@) == subscriptions(b@)),
{
    let none: Vec<RoutingEvent> = Vec::new();
    assert(Seq::new(none@.len(), |i: int| none@[i]@) =~= Seq::<RoutingView>::empty());
    let x = match &a.routing {
        Some(v) => v,
        None => &none,
    };
    let y = match &b.routing {
        Some(v) => v,
        None => &none,
    };
    same_events(x, y)
}

/// What a patch does, in short.
#[derive(Debug)]
pub struct GovPatchSummary {
    pub base_manifest_hash: Option<HashRef>,
    pub patch_hash: HashRef,
    pub ops: Vec<String>,
    pub def_changes: Vec<GovDefChange>,
    pub manifest_sections: Vec<String>,
}

/// Whether a change of a definition, other than a secret, is one between two manifests.
pub open spec fn is_def_change(x: ChangeView, base: ManifestView, next: ManifestView) -> bool {
    ||| is_ref_change(x, "defschema"@, base.schemas, next.schemas)
    ||| is_ref_change(x, "defmodule"@, base.modules, next.modules)
    ||| is_ref_change(x, "defeffect"@, base.effects, next.effects)
    ||| is_ref_change(x, "defcap"@, base.caps, next.caps)
    ||| is_ref_change(x, "defpolicy"@, base.policies, next.policies)
}

/// Whether a change is one between two manifests.
pub open spec fn is_change(
    x: ChangeView,
    base: ManifestView,
    base_secrets: Seq<SecretView>,
    next: ManifestView,
    next_secrets: Seq<SecretView>,
) -> bool {
    is_def_change(x, base, next) || is_ref_change(
        x,
        "defsecret"@,
        secret_refs(base_secrets),
        secret_refs(next_secrets),
    )
}

/// The models of texts.
pub open spec fn texts_view(v: Seq<String>) -> Seq<Seq<char>> {
    Seq::new(v.len(), |i: int| v[i]@)
}

/// A list with a word at the end, under a condition.
pub open spec fn push_if(s: Seq<Seq<char>>, cond: bool, word: Seq<char>) -> Seq<Seq<char>> {
    if cond {
        s.push(word)
    } else {
        s
    }
}

fn push_word(out: &mut Vec<String>, cond: bool, word: &str)
    ensures
        texts_view(final(out)@) == push_if(texts_view(old(out)@), cond, word@),
{
    let ghost before = texts_view(out@);
    if cond {
        out.push(word.to_owned());
        assert(texts_view(out@) =~= before.push(word@));
    }
}

/// What of a manifest is changed.
pub struct Touched {
    pub defaults: bool,
    pub refs: bool,
    pub module_bindings: bool,
    pub routing_events: bool,
    pub routing_inboxes: bool,
    pub secrets: bool,
}

pub open spec fn touched(
    base: ManifestView,
    base_s: ManifestSections,
    next: ManifestView,
    next_s: ManifestSections,
) -> Touched {
    Touched {
        defaults: base_s.defaults@ != next_s.defaults@,
        refs: exists|x: ChangeView| #[trigger]
            is_change(x, base, secrets_view(base_s.secrets@), next, secrets_view(next_s.secrets@)),
        module_bindings: base_s.module_bindings@ != next_s.module_bindings@,
        routing_events: subscriptions(base) != subscriptions(next),
        routing_inboxes: base_s.routing_inboxes@ != next_s.routing_inboxes@,
        secrets: secrets_view(base_s.secrets@) != secrets_view(next_s.secrets@),
    }
}

/// The names of the changed sections, in name order.
pub open spec fn section_words(t: Touched) -> Seq<Seq<char>> {
    let s = push_if(Seq::empty(), t.defaults, "defaults"@);
    let s = push_if(s, t.refs, "manifest_refs"@);
    let s = push_if(s, t.module_bindings, "module_bindings"@);
    let s = push_if(s, t.routing_events, "routing_events"@);
    let s = push_if(s, t.routing_inboxes, "routing_inboxes"@);
    push_if(s, t.secrets, "secrets"@)
}

/// Whether some change is of this kind.
pub open spec fn some_action(changes: Seq<ChangeView>, action: GovChangeAction) -> bool {
    exists|i: int| 0 <= i < changes.len() && (#[trigger] changes[i]).2 == action
}

/// The operations that the changes come to, in name order.
pub open spec fn op_words(changes: Seq<ChangeView>, t: Touched) -> Seq<Seq<char>> {
    let s = push_if(Seq::empty(), some_action(changes, GovChangeAction::Added), "add_def"@);
    let s = push_if(s, some_action(changes, GovChangeAction::Removed), "remove_def"@);
    let s = push_if(s, some_action(changes, GovChangeAction::Changed), "replace_def"@);
    let s = push_if(s, t.defaults, "set_defaults"@);
    let s = push_if(s, t.refs, "set_manifest_refs"@);
    let s = push_if(s, t.module_bindings, "set_module_bindings"@);
    let s = push_if(s, t.routing_events, "set_routing_events"@);
    let s = push_if(s, t.routing_inboxes, "set_routing_inboxes"@);
    push_if(s, t.secrets, "set_secrets"@)
}

pub open spec fn option_hash(h: Option<HashRef>) -> Option<Seq<char>> {
    match h {
        Some(x) => Some(x@),
        None => None,
    }
}

/// Whether a summary is that of the way from one manifest to another.
pub open spec fn is_summary(
    s: GovPatchSummary,
    base: ManifestView,
    base_s: ManifestSections,
    next: ManifestView,
    next_s: ManifestSections,
    base_hash: Option<Seq<char>>,
    patch_hash: Seq<char>,
) -> bool {
    let t = touched(base, base_s, next, next_s);
    let changes = changes_view(s.def_changes@);
    &&& option_hash(s.base_manifest_hash) == base_hash
    &&& s.patch_hash@ == patch_hash
    &&& in_order(changes)
    &&& forall|x: ChangeView| #[trigger]
        changes.contains(x) <==> is_change(
            x,
            base,
            secrets_view(base_s.secrets@),
            next,
            secrets_view(next_s.secrets@),
        )
    &&& texts_view(s.manifest_sections@) == section_words(t)
    &&& texts_view(s.ops@) == op_words(changes, t)
}

fn has_action(changes: &Vec<GovDefChange>, action: GovChangeAction) -> (r: bool)
    ensures
        r == some_action(changes_view(changes@), action),
{
    let ghost s = changes_view(changes@);
    let mut i: usize = 0;
    while i < changes.len()
        invariant
            i <= changes@.len(),
            s == changes_view(changes@),
            forall|k: int| 0 <= k < i ==> (#[trigger] s[k]).2 != action,
        decreases changes@.len() - i,
    {
        assert(s[i as int].2 == changes@[i as int].action);
        if changes[i].action == action {
            return true;
        }
        i += 1;
    }
    false
}

/// Says what a patch does to a manifest.
pub fn build_patch_summary(
    base: &Manifest,
    base_sections: &ManifestSections,
    next: &Manifest,
    next_sections: &ManifestSections,
    base_hash: Option<&HashRef>,
    patch_hash: &HashRef,
) -> (r: GovPatchSummary)
    ensures
        is_summary(
            r,
            base@,
            *base_sections,
            next@,
            *next_sections,
            match base_hash {
                Some(h) => Some(h@),
                None => None,
            },
            patch_hash@,
        ),
{
    proof {
        reveal_strlit("defschema");
        reveal_strlit("defmodule");
        reveal_strlit("defeffect");
        reveal_strlit("defcap");
        reveal_strlit("defpolicy");
        reveal_strlit("defsecret");
        assert("defschema"@[3] == 's' && "defschema"@[4] == 'c');
        assert("defmodule"@[3] == 'm');
        assert("defeffect"@[3] == 'e');
        assert("defcap"@[3] == 'c');
        assert("defpolicy"@[3] == 'p');
        assert("defsecret"@[3] == 's' && "defsecret"@[4] == 'e');
    }
    let ghost bs = secrets_view(base_sections.secrets@);
    let ghost ns = secrets_view(next_sections.secrets@);
    let mut changes: Vec<GovDefChange> = Vec::new();
    let a = push_named_ref_changes("defschema", &base.schemas, &next.schemas, &mut changes);
    let b = push_named_ref_changes("defmodule", &base.modules, &next.modules, &mut changes);
    let c = push_named_ref_changes("defeffect", &base.effects, &next.effects, &mut changes);
    let d = push_named_ref_changes("defcap", &base.caps, &next.caps, &mut changes);
    let e = push_named_ref_changes("defpolicy", &base.policies, &next.policies, &mut changes);
    let base_refs = identify_secrets(&base_sections.secrets);
    let next_refs = identify_secrets(&next_sections.secrets);
    let f = push_named_ref_changes("defsecret", &base_refs, &next_refs, &mut changes);
    let refs_changed = a || b || c || d || e || f;
    proof {
        assert forall|x: ChangeView| #[trigger]
            changes_view(changes@).contains(x) <==> is_change(x, base@, bs, next@, ns) by {}
        if refs_changed {
            if a {
                let x = choose|x: ChangeView| #[trigger]
                    is_ref_change(x, "defschema"@, base@.schemas, next@.schemas);
                assert(is_change(x, base@, bs, next@, ns));
            } else if b {
                let x = choose|x: ChangeView| #[trigger]
                    is_ref_change(x, "defmodule"@, base@.modules, next@.modules);
                assert(is_change(x, base@, bs, next@, ns));
            } else if c {
                let x = choose|x: ChangeView| #[trigger]
                    is_ref_change(x, "defeffect"@, base@.effects, next@.effects);
                assert(is_change(x, base@, bs, next@, ns));
            } else if d {
                let x = choose|x: ChangeView| #[trigger]
                    is_ref_change(x, "defcap"@, base@.caps, next@.caps);
                assert(is_change(x, base@, bs, next@, ns));
            } else if e {
                let x = choose|x: ChangeView| #[trigger]
                    is_ref_change(x, "defpolicy"@, base@.policies, next@.policies);
                assert(is_change(x, base@, bs, next@, ns));
            } else {
                let x = choose|x: ChangeView| #[trigger]
                    is_ref_change(x, "defsecret"@, secret_refs(bs), secret_refs(ns));
                assert(is_change(x, base@, bs, next@, ns));
            }
        }
        assert(refs_changed == touched(base@, *base_sections, next@, *next_sections).refs);
    }
    let defaults = !bytes_eq(base_sections.defaults.as_slice(), next_sections.defaults.as_slice());
    let routing_events = !same_subscriptions(base, next);
    let routing_inboxes = !bytes_eq(
        base_sections.routing_inboxes.as_slice(),
        next_sections.routing_inboxes.as_slice(),
    );
    let module_bindings = !bytes_eq(
        base_sections.module_bindings.as_slice(),
        next_sections.module_bindings.as_slice(),
    );
    let secrets = !same_secrets(&base_sections.secrets, &next_sections.secrets);

    let mut manifest_sections: Vec<String> = Vec::new();
    assert(texts_view(manifest_sections@) =~= Seq::empty());
    push_word(&mut manifest_sections, defaults, "defaults");
    push_word(&mut manifest_sections, refs_changed, "manifest_refs");
    push_word(&mut manifest_sections, module_bindings, "module_bindings");
    push_word(&mut manifest_sections, routing_events, "routing_events");
    push_word(&mut manifest_sections, routing_inboxes, "routing_inboxes");
    push_word(&mut manifest_sections, secrets, "secrets");

    let mut ops: Vec<String> = Vec::new();
    assert(texts_view(ops@) =~= Seq::empty());
    push_word(&mut ops, has_action(&changes, GovChangeAction::Added), "add_def");
    push_word(&mut ops, has_action(&changes, GovChangeAction::Removed), "remove_def");
    push_word(&mut ops, has_action(&changes, GovChangeAction::Changed), "replace_def");
    push_word(&mut ops, defaults, "set_defaults");
    push_word(&mut ops, refs_changed, "set_manifest_refs");
    push_word(&mut ops, module_bindings, "set_module_bindings");
    push_word(&mut ops, routing_events, "set_routing_events");
    push_word(&mut ops, routing_inboxes, "set_routing_inboxes");
    push_word(&mut ops, secrets, "set_secrets");

    GovPatchSummary {
        base_manifest_hash: match base_hash {
            Some(h) => Some(h.clone()),
            None => None,
        },
        patch_hash: patch_hash.clone(),
        ops,
        def_changes: changes,
        manifest_sections,
    }
}

/// A patch that leaves a manifest as it is has an empty summary.
pub proof fn lemma_no_change_no_summary(
    s: GovPatchSummary,
    m: ManifestView,
    sections: ManifestSections,
    base_hash: Option<Seq<char>>,
    patch_hash: Seq<char>,
)
    requires
        is_summary(s, m, sections, m, sections, base_hash, patch_hash),
    ensures
        s.def_changes@.len() == 0,
        s.manifest_sections@.len() == 0,
        s.ops@.len() == 0,
{
    let secrets = secrets_view(sections.secrets@);
    let changes = changes_view(s.def_changes@);
    assert forall|x: ChangeView| !(#[trigger] is_change(x, m, secrets, m, secrets)) by {}
    if s.def_changes@.len() > 0 {
        assert(changes.contains(changes[0]));
    }
    assert(texts_view(s.manifest_sections@).len() == 0);
    assert(texts_view(s.ops@).len() == 0);
}

/// The error of a base that is not the one that was named.
pub open spec fn base_fault(expected: Seq<char>, actual: Seq<char>) -> Seq<char> {
    "manifest_base mismatch: expected "@ + expected + ", got "@ + actual
}

/// The base of a proposal: the one that was named, if the patch has the same; else that of the
/// patch.
pub open spec fn settled_base(named: Option<Seq<char>>, actual: Option<Seq<char>>) -> Result<
    Option<Seq<char>>,
    Seq<char>,
> {
    match (named, actual) {
        (Some(_), None) => Err(
            "manifest_base supplied but patch input does not include a base manifest hash"@,
        ),
        (Some(e), Some(a)) => if e != a {
            Err(base_fault(e, a))
        } else {
            Ok(Some(e))
        },
        (None, a) => Ok(a),
    }
}

pub fn settle_manifest_base(named: Option<HashRef>, actual: &Option<HashRef>) -> (r: Result<
    Option<HashRef>,
    KernelError,
>)
    ensures
        match (r, settled_base(option_hash(named), option_hash(*actual))) {
            (Ok(h), Ok(t)) => option_hash(h) == t,
            (Err(e), Err(t)) => is_manifest_error(e, t),
            _ => false,
        },
{
    match (named, actual) {
        (Some(_), None) => Err(
            KernelError::Manifest(
                "manifest_base supplied but patch input does not include a base manifest hash".to_owned(),
            ),
        ),
        (Some(e), Some(a)) => if !str_eq(e.as_str(), a.as_str()) {
            Err(
                KernelError::Manifest(
                    join4(
                        "manifest_base mismatch: expected ",
                        e.as_str(),
                        ", got ",
                        a.as_str(),
                    ),
                ),
            )
        } else {
            Ok(Some(e))
        },
        (None, Some(a)) => Ok(Some(a.clone())),
        (None, None) => Ok(None),
    }
}

/// A patch that is ready to be proposed. `base_sections` and `sections` are the parts of the two
/// manifests that the summary was made of.
#[derive(Debug)]
pub struct PreparedPatch {
    pub patch: ManifestPatch,
    pub patch_hash: HashRef,
    pub base_manifest_hash: Option<HashRef>,
    pub summary: GovPatchSummary,
    pub sections: ManifestSections,
}

/// The params of a proposal, with the patch by its digest.
#[derive(Debug)]
pub struct GovProposeParams {
    pub patch: GovPatchInput,
    pub summary: GovPatchSummary,
    pub manifest_base: Option<HashRef>,
    pub description: Option<String>,
}

/// The params of a proposal as they come.
#[derive(Debug)]
pub struct GovProposeParamsRaw {
    pub patch: GovPatchInput,
    pub manifest_base: Option<HashRef>,
    pub description: Option<String>,
}

/// Whether a result is the params of the proposal of a prepared patch, or says that the base is not
/// that of the patch.
pub open spec fn is_propose_params(
    r: Result<GovProposeParams, KernelError>,
    manifest_base: Option<HashRef>,
    description: Option<String>,
    prepared: PreparedPatch,
) -> bool {
    match (
        r,
        settled_base(option_hash(manifest_base), option_hash(prepared.base_manifest_hash)),
    ) {
        (Ok(p), Ok(base)) => {
            &&& p.patch@ == InputView::PatchHash(prepared.patch_hash@)
            &&& p.summary == prepared.summary
            &&& option_hash(p.manifest_base) == base
            &&& p.description == description
        },
        (Err(e), Err(t)) => is_manifest_error(e, t),
        _ => false,
    }
}

/// The params of the proposal of a prepared patch.
pub fn propose_params(
    manifest_base: Option<HashRef>,
    description: Option<String>,
    prepared: PreparedPatch,
) -> (r: Result<GovProposeParams, KernelError>)
    ensures
        is_propose_params(r, manifest_base, description, prepared),
{
    match settle_manifest_base(manifest_base, &prepared.base_manifest_hash) {
        Err(e) => Err(e),
        Ok(manifest_base) => Ok(
            GovProposeParams {
                patch: GovPatchInput::PatchHash(prepared.patch_hash),
                summary: prepared.summary,
                manifest_base,
                description,
            },
        ),
    }
}

/// Whether the params of an effect of this kind are prepared before it is asked for.
pub fn is_propose_kind(kind: &str) -> (r: bool)
    ensures
        r == (kind@ == "governance.propose"@),
{
    str_eq(kind, "governance.propose")
}

/// Reading and writing of patches, documents and manifests.
pub trait PatchCodec {
    fn decode_patch(&self, bytes: &Vec<u8>) -> Result<ManifestPatch, String>;

    fn encode_patch(&self, patch: &ManifestPatch) -> Result<Vec<u8>, String>;

    fn decode_doc(&self, bytes: &Vec<u8>) -> Result<PatchDocument, String>;

    fn decode_manifest(&self, bytes: &Vec<u8>) -> Result<Manifest, String>;

    fn sections(&self, manifest: &Manifest) -> ManifestSections;
}

fn manifest_error(what: &str, why: &str) -> (r: KernelError)
    ensures
        is_manifest_error(r, what@ + ": "@ + why@),
{
    KernelError::Manifest(join3(what, ": ", why))
}

/// Whether a result is the patch that the codec reads from bytes, or its error.
pub open spec fn patch_decoded<C: PatchCodec>(
    r: Result<ManifestPatch, KernelError>,
    codec: &C,
    bytes: Seq<u8>,
) -> bool {
    exists|b: &Vec<u8>, told: Result<ManifestPatch, String>|
        b@ == bytes && #[trigger] call_ensures(C::decode_patch, (codec, b), told) && match told {
            Ok(p) => r == Ok::<ManifestPatch, KernelError>(p),
            Err(t) => r is Err && is_manifest_error(
                r->Err_0,
                "decode patch cbor"@ + ": "@ + t@,
            ),
        }
}

/// Reads a patch from its bytes.
pub fn decode_patch_cbor<C: PatchCodec>(codec: &C, bytes: &Vec<u8>) -> (r: Result<
    ManifestPatch,
    KernelError,
>)
    ensures
        patch_decoded(r, codec, bytes@),
{
    let read = codec.decode_patch(bytes);
    let ghost told = read;
    assert(call_ensures(C::decode_patch, (codec, bytes), told));
    match read {
        Ok(p) => Ok(p),
        Err(e) => Err(manifest_error("decode patch cbor", e.as_str())),
    }
}

/// The digest that a reference holds.
pub open spec fn ref_digest(hash: HashRef) -> Seq<u8> {
    hex_bytes(hash@.skip(7))
}

fn digest_of(hash: &HashRef) -> (r: ContentHash)
    ensures
        r@ == ref_digest(*hash),
{
    match ContentHash::from_hex_str(hash.as_str()) {
        Ok(h) => h,
        Err(_) => ContentHash::from_array([0u8; 32]),
    }
}

/// Whether an error says that the store does not give the blob under a digest.
pub open spec fn blob_unread<S: Store<AirNode>>(
    e: KernelError,
    store: S,
    digest: Seq<u8>,
    what: Seq<char>,
) -> bool {
    exists|why: StoreError| #[trigger]
        blob_fails::<AirNode, S>(store, digest, why) && is_manifest_error(
            e,
            what + ": "@ + why.text(),
        )
}

/// Whether a result is the patch that the codec reads from the blob under a digest, or the error of
/// the codec or the store.
pub open spec fn patch_loaded<S: Store<AirNode>, C: PatchCodec>(
    r: Result<ManifestPatch, KernelError>,
    store: S,
    codec: &C,
    digest: Seq<u8>,
) -> bool {
    ||| store.blobs().contains_key(digest) && patch_decoded(r, codec, store.blobs()[digest])
    ||| r is Err && blob_unread(r->Err_0, store, digest, "load patch"@)
}

/// Loads a patch from the store.
pub fn load_patch_by_hash<S: Store<AirNode>, C: PatchCodec>(
    store: &S,
    codec: &C,
    hash: &HashRef,
) -> (r: Result<ManifestPatch, KernelError>)
    ensures
        patch_loaded(r, *store, codec, ref_digest(*hash)),
{
    match store.get_blob(digest_of(hash)) {
        Err(e) => {
            assert(blob_fails::<AirNode, S>(*store, ref_digest(*hash), e));
            Err(manifest_error("load patch", e.message().as_str()))
        },
        Ok(bytes) => decode_patch_cbor(codec, &bytes),
    }
}

/// Whether an error says that the store does not give the node under a digest.
pub open spec fn node_unread<S: Store<AirNode>>(
    e: KernelError,
    store: S,
    digest: Seq<u8>,
    what: Seq<char>,
) -> bool {
    exists|why: StoreError| #[trigger]
        read_fails::<AirNode, S>(store, digest, why) && is_manifest_error(
            e,
            what + ": "@ + why.text(),
        )
}

/// Whether a result is the manifest that the codec reads from bytes, or its error.
pub open spec fn manifest_decoded<C: PatchCodec>(
    r: Result<Manifest, KernelError>,
    codec: &C,
    bytes: Seq<u8>,
    what: Seq<char>,
) -> bool {
    exists|b: &Vec<u8>, told: Result<Manifest, String>|
        b@ == bytes && #[trigger] call_ensures(C::decode_manifest, (codec, b), told) && match told {
            Ok(m) => r == Ok::<Manifest, KernelError>(m),
            Err(t) => r is Err && is_manifest_error(r->Err_0, what + ": "@ + t@),
        }
}

fn decode_manifest<C: PatchCodec>(codec: &C, bytes: &Vec<u8>, what: &str) -> (r: Result<
    Manifest,
    KernelError,
>)
    ensures
        manifest_decoded(r, codec, bytes@, what@),
{
    let read = codec.decode_manifest(bytes);
    let ghost told = read;
    assert(call_ensures(C::decode_manifest, (codec, bytes), told));
    match read {
        Ok(m) => Ok(m),
        Err(e) => Err(manifest_error(what, e.as_str())),
    }
}

/// Whether a result is the manifest under a digest, or says why there is none.
pub open spec fn manifest_loaded<S: Store<AirNode>, C: PatchCodec>(
    r: Result<Manifest, KernelError>,
    store: S,
    codec: &C,
    digest: Seq<u8>,
) -> bool {
    ||| r is Err && node_unread(r->Err_0, store, digest, "load manifest"@)
    ||| store.nodes().contains_key(digest) && if store.nodes()[digest].kind
        != NodeKind::Manifest {
        r is Err && is_manifest_error(
            r->Err_0,
            "base_manifest_hash did not point to a manifest node"@,
        )
    } else {
        manifest_decoded(r, codec, store.nodes()[digest].bytes, "load manifest"@)
    }
}

/// Loads a manifest from the store. The digest must be that of a manifest.
pub fn load_manifest_by_hash<S: Store<AirNode>, C: PatchCodec>(
    store: &S,
    codec: &C,
    hash: &HashRef,
) -> (r: Result<Manifest, KernelError>)
    ensures
        manifest_loaded(r, *store, codec, ref_digest(*hash)),
{
    match store.get_node(digest_of(hash)) {
        Err(e) => {
            assert(read_fails::<AirNode, S>(*store, ref_digest(*hash), e));
            Err(manifest_error("load manifest", e.message().as_str()))
        },
        Ok(node) => if node.kind != NodeKind::Manifest {
            Err(
                KernelError::Manifest(
                    "base_manifest_hash did not point to a manifest node".to_owned(),
                ),
            )
        } else {
            decode_manifest(codec, &node.bytes, "load manifest")
        },
    }
}

/// Whether a patch was written by the codec and put into the store, and the result is the reference
/// to it; or the error of the codec or the store.
pub open spec fn patch_stored<S: Store<AirNode>, C: PatchCodec>(
    r: Result<HashRef, KernelError>,
    before: S,
    after: S,
    codec: &C,
    patch: ManifestPatch,
) -> bool {
    &&& after.nodes() == before.nodes()
    &&& exists|told: Result<Vec<u8>, String>| #[trigger]
        call_ensures(C::encode_patch, (codec, &patch), told) && match told {
            Err(t) => r is Err && is_manifest_error(r->Err_0, "encode patch"@ + ": "@ + t@)
                && after.blobs() == before.blobs(),
            Ok(b) => match r {
                Ok(h) => h@ == hash_text(sha256(b@)) && after.blobs() == or_insert(
                    before.blobs(),
                    sha256(b@),
                    b@,
                ),
                Err(e) => after.blobs() == before.blobs() && exists|why: StoreError| #[trigger]
                    blob_write_fails::<AirNode, S>(before, b@, why) && is_manifest_error(
                        e,
                        "store patch"@ + ": "@ + why.text(),
                    ),
            },
        }
}

/// Stores a patch and returns the reference to it.
fn store_patch<S: Store<AirNode>, C: PatchCodec>(
    store: &mut S,
    codec: &C,
    patch: &ManifestPatch,
) -> (r: Result<HashRef, KernelError>)
    ensures
        patch_stored(r, *old(store), *final(store), codec, *patch),
{
    let ghost before = *store;
    let written = codec.encode_patch(patch);
    let ghost told = written;
    assert(call_ensures(C::encode_patch, (codec, patch), told));
    let bytes = match written {
        Ok(b) => b,
        Err(e) => {
            return Err(manifest_error("encode patch", e.as_str()));
        },
    };
    match store.put_blob(&bytes) {
        Ok(h) => Ok(HashRef::of_hash(&h)),
        Err(e) => {
            assert(blob_write_fails::<AirNode, S>(before, bytes@, e));
            Err(manifest_error("store patch", e.message().as_str()))
        },
    }
}

/// Whether a result is the base of a patch document, or says why it cannot be had.
pub open spec fn base_loaded<S: Store<AirNode>, C: PatchCodec>(
    r: Result<Manifest, KernelError>,
    store: S,
    codec: &C,
    digest: Seq<u8>,
) -> bool {
    ||| r is Err && node_unread(r->Err_0, store, digest, "load base manifest"@)
    ||| store.nodes().contains_key(digest) && manifest_decoded(
        r,
        codec,
        store.nodes()[digest].bytes,
        "load base manifest: CBOR serialization error"@,
    )
}

fn load_base<S: Store<AirNode>, C: PatchCodec>(store: &S, codec: &C, hash: &HashRef) -> (r: Result<
    Manifest,
    KernelError,
>)
    ensures
        base_loaded(r, *store, codec, ref_digest(*hash)),
{
    match store.get_node(digest_of(hash)) {
        Err(e) => {
            assert(read_fails::<AirNode, S>(*store, ref_digest(*hash), e));
            Err(manifest_error("load base manifest", e.message().as_str()))
        },
        Ok(node) => decode_manifest(
            codec,
            &node.bytes,
            "load base manifest: CBOR serialization error",
        ),
    }
}

/// Whether a result is the patch that a document makes of the base that it names.
pub open spec fn base_patched<S: Store<AirNode>, C: PatchCodec>(
    r: Result<(ManifestPatch, HashRef), KernelError>,
    before: S,
    after: S,
    codec: &C,
    doc: PatchDocument,
    builtins: Builtins,
) -> bool {
    let digest = hex_bytes(doc.base_manifest_hash@.skip(7));
    exists|base: Result<Manifest, KernelError>| #[trigger]
        base_loaded(base, before, codec, digest) && match base {
            Err(e) => r == Err::<(ManifestPatch, HashRef), KernelError>(e) && after == before,
            Ok(m) => match r {
                Ok((p, h)) => h@ == doc.base_manifest_hash@ && document_compiled(
                    Ok(p),
                    before,
                    after,
                    doc,
                    m@,
                    builtins,
                ),
                Err(e) => document_compiled(Err(e), before, after, doc, m@, builtins),
            },
        }
}

/// Whether a result is the patch that the bytes of a document stand for, with the base that it
/// names; or what is wrong with them.
pub open spec fn doc_compiled<S: Store<AirNode>, C: PatchCodec>(
    r: Result<(ManifestPatch, HashRef), KernelError>,
    before: S,
    after: S,
    codec: &C,
    bytes: Seq<u8>,
    builtins: Builtins,
) -> bool {
    exists|b: &Vec<u8>, told: Result<PatchDocument, String>|
        b@ == bytes && #[trigger] call_ensures(C::decode_doc, (codec, b), told) && match told {
            Err(t) => r is Err && is_manifest_error(r->Err_0, "decode patch doc"@ + ": "@ + t@)
                && after == before,
            Ok(doc) => if !is_hash_text(doc.base_manifest_hash@) {
                r is Err && is_manifest_error(
                    r->Err_0,
                    "invalid base_manifest_hash"@ + ": "@ + hash_fault(doc.base_manifest_hash@),
                ) && after == before
            } else if head_fault(doc) is Some {
                r is Err && is_manifest_error(r->Err_0, head_fault(doc)->Some_0) && after == before
            } else {
                base_patched(r, before, after, codec, doc, builtins)
            },
        }
}

/// Turns the bytes of a patch document into a patch; also gives the base it names.
fn compile_patch_doc<S: Store<AirNode>, C: PatchCodec>(
    store: &mut S,
    codec: &C,
    bytes: &Vec<u8>,
    builtins: &Builtins,
) -> (r: Result<(ManifestPatch, HashRef), KernelError>)
    ensures
        doc_compiled(r, *old(store), *final(store), codec, bytes@, *builtins),
{
    let ghost before = *store;
    let read = codec.decode_doc(bytes);
    let ghost told = read;
    assert(call_ensures(C::decode_doc, (codec, bytes), told));
    let doc = match read {
        Ok(d) => d,
        Err(e) => {
            return Err(manifest_error("decode patch doc", e.as_str()));
        },
    };
    let base_hash = match HashRef::new(doc.base_manifest_hash.clone()) {
        Ok(h) => h,
        Err(e) => {
            return Err(manifest_error("invalid base_manifest_hash", e.message().as_str()));
        },
    };
    match base_manifest_hash(&doc) {
        Ok(_) => {},
        Err(e) => {
            return Err(e);
        },
    }
    let loaded = load_base(store, codec, &base_hash);
    let ghost base = loaded;
    let start = match loaded {
        Ok(m) => m,
        Err(e) => {
            assert(base_loaded(base, before, codec, hex_bytes(doc.base_manifest_hash@.skip(7))));
            return Err(e);
        },
    };
    let ghost whole = doc;
    let r = match compile_patch_document(store, doc, start, builtins) {
        Ok(p) => Ok((p, base_hash)),
        Err(e) => Err(e),
    };
    proof {
        assert(base_loaded(base, before, codec, hex_bytes(whole.base_manifest_hash@.skip(7))));
        assert(base_patched(r, before, *store, codec, whole, *builtins));
    }
    r
}

/// Whether a prepared patch tells what it does to a base, over the sections that the codec gives of
/// the two manifests.
pub open spec fn summarised<C: PatchCodec>(p: PreparedPatch, codec: &C, base: Manifest) -> bool {
    &&& call_ensures(C::sections, (codec, &p.patch.manifest), p.sections)
    &&& exists|base_s: ManifestSections| #[trigger]
        call_ensures(C::sections, (codec, &base), base_s) && is_summary(
            p.summary,
            base@,
            base_s,
            p.patch@.manifest,
            p.sections,
            option_hash(p.base_manifest_hash),
            p.patch_hash@,
        )
}

/// A patch with what it does to its base.
fn summarise<C: PatchCodec>(
    codec: &C,
    base: &Manifest,
    patch: ManifestPatch,
    patch_hash: HashRef,
    base_manifest_hash: Option<HashRef>,
) -> (r: PreparedPatch)
    ensures
        r.patch == patch,
        r.patch_hash == patch_hash,
        r.base_manifest_hash == base_manifest_hash,
        summarised(r, codec, *base),
{
    let base_sections = codec.sections(base);
    let sections = codec.sections(&patch.manifest);
    let summary = match &base_manifest_hash {
        Some(h) => build_patch_summary(
            base,
            &base_sections,
            &patch.manifest,
            &sections,
            Some(h),
            &patch_hash,
        ),
        None => build_patch_summary(
            base,
            &base_sections,
            &patch.manifest,
            &sections,
            None,
            &patch_hash,
        ),
    };
    let r = PreparedPatch { patch, patch_hash, base_manifest_hash, summary, sections };
    assert(call_ensures(C::sections, (codec, base), base_sections));
    r
}

/// Whether a result is the patch under a digest, with what it does to a manifest.
pub open spec fn hash_prepared<S: Store<AirNode>, C: PatchCodec>(
    r: Result<PreparedPatch, KernelError>,
    store: S,
    codec: &C,
    current: Manifest,
    hash: HashRef,
) -> bool {
    exists|loaded: Result<ManifestPatch, KernelError>| #[trigger]
        patch_loaded(loaded, store, codec, ref_digest(hash)) && match loaded {
            Err(e) => r == Err::<PreparedPatch, KernelError>(e),
            Ok(patch) => r is Ok && r->Ok_0.patch == patch && r->Ok_0.patch_hash == hash
                && r->Ok_0.base_manifest_hash is None && summarised(r->Ok_0, codec, current),
        }
}

/// Whether a result is a patch, stored, with what it does to a manifest.
pub open spec fn stored_prepared<S: Store<AirNode>, C: PatchCodec>(
    r: Result<PreparedPatch, KernelError>,
    before: S,
    after: S,
    codec: &C,
    current: Manifest,
    patch: ManifestPatch,
) -> bool {
    exists|stored: Result<HashRef, KernelError>| #[trigger]
        patch_stored(stored, before, after, codec, patch) && match stored {
            Err(e) => r == Err::<PreparedPatch, KernelError>(e),
            Ok(h) => r is Ok && r->Ok_0.patch == patch && r->Ok_0.patch_hash == h
                && r->Ok_0.base_manifest_hash is None && summarised(r->Ok_0, codec, current),
        }
}

/// Whether a result is the patch that bytes stand for, in canonical form, stored, with what it does
/// to a manifest.
pub open spec fn cbor_prepared<S: Store<AirNode>, C: PatchCodec>(
    r: Result<PreparedPatch, KernelError>,
    before: S,
    after: S,
    codec: &C,
    current: Manifest,
    bytes: Seq<u8>,
    builtins: Builtins,
) -> bool {
    exists|decoded: Result<ManifestPatch, KernelError>| #[trigger]
        patch_decoded(decoded, codec, bytes) && match decoded {
            Err(e) => r == Err::<PreparedPatch, KernelError>(e) && after == before,
            Ok(d) => {
                ||| after == before && r is Err && schema_unread(
                    r->Err_0,
                    before,
                    d@.manifest.schemas,
                    builtins.schemas@,
                    d@.nodes,
                )
                ||| exists|patch: ManifestPatch|
                    patch@ == normalized(d@, builtins) && #[trigger] stored_prepared(
                        r,
                        before,
                        after,
                        codec,
                        current,
                        patch,
                    )
            },
        }
}

/// Prepares a patch that comes as bytes.
fn prepare_patch_cbor<S: Store<AirNode>, C: PatchCodec>(
    store: &mut S,
    codec: &C,
    current: &Manifest,
    bytes: &Vec<u8>,
    manifest_base: &Option<HashRef>,
    builtins: &Builtins,
) -> (r: Result<PreparedPatch, KernelError>)
    ensures
        if manifest_base is Some {
            r is Err && is_manifest_error(
                r->Err_0,
                "manifest_base is not supported with patch_cbor input"@,
            ) && *final(store) == *old(store)
        } else {
            cbor_prepared(r, *old(store), *final(store), codec, *current, bytes@, *builtins)
        },
{
    if manifest_base.is_some() {
        return Err(
            KernelError::Manifest(
                "manifest_base is not supported with patch_cbor input".to_owned(),
            ),
        );
    }
    let ghost before = *store;
    let read = decode_patch_cbor(codec, bytes);
    let ghost decoded_patch = read;
    assert(patch_decoded(decoded_patch, codec, bytes@));
    let decoded = match read {
        Ok(p) => p,
        Err(e) => {
            return Err(e);
        },
    };
    let patch = match canonicalize_patch(store, decoded, builtins) {
        Ok(p) => p,
        Err(e) => {
            return Err(e);
        },
    };
    let ghost whole = patch;
    let stored = store_patch(store, codec, &patch);
    let ghost kept = stored;
    let r = match stored {
        Ok(patch_hash) => Ok(summarise(codec, current, patch, patch_hash, None)),
        Err(e) => Err(e),
    };
    proof {
        assert(patch_stored(kept, before, *store, codec, whole));
        assert(stored_prepared(r, before, *store, codec, *current, whole));
    }
    r
}

/// The text of the error for a base other than that of the document.
pub open spec fn base_mismatch(expected: Seq<char>, found: Seq<char>) -> Seq<char> {
    "manifest_base mismatch: expected "@ + expected + ", got "@ + found
}

/// Whether a result is a patch of a base, stored, with what it does to its base.
pub open spec fn based_prepared<S: Store<AirNode>, C: PatchCodec>(
    r: Result<PreparedPatch, KernelError>,
    before: S,
    after: S,
    codec: &C,
    patch: ManifestPatch,
    base_hash: HashRef,
) -> bool {
    exists|stored: Result<HashRef, KernelError>| #[trigger]
        patch_stored(stored, before, after, codec, patch) && match stored {
            Err(e) => r == Err::<PreparedPatch, KernelError>(e),
            Ok(h) => exists|base: Result<Manifest, KernelError>| #[trigger]
                manifest_loaded(base, after, codec, ref_digest(base_hash)) && match base {
                    Err(e) => r == Err::<PreparedPatch, KernelError>(e),
                    Ok(m) => r is Ok && r->Ok_0.patch == patch && r->Ok_0.patch_hash == h
                        && r->Ok_0.base_manifest_hash == Some(base_hash) && summarised(
                        r->Ok_0,
                        codec,
                        m,
                    ),
                },
        }
}

/// Whether a result is the patch that a document stands for, stored, with what it does to its base.
/// A base that is named must be that of the document.
pub open spec fn doc_prepared<S: Store<AirNode>, C: PatchCodec>(
    r: Result<PreparedPatch, KernelError>,
    before: S,
    after: S,
    codec: &C,
    bytes: Seq<u8>,
    manifest_base: Option<HashRef>,
    builtins: Builtins,
) -> bool {
    exists|made: Result<(ManifestPatch, HashRef), KernelError>, mid: S| #[trigger]
        doc_compiled(made, before, mid, codec, bytes, builtins) && match made {
            Err(e) => r == Err::<PreparedPatch, KernelError>(e) && after == mid,
            Ok((patch, base_hash)) => if manifest_base is Some && manifest_base->Some_0@
                != base_hash@ {
                r is Err && is_manifest_error(
                    r->Err_0,
                    base_mismatch(manifest_base->Some_0@, base_hash@),
                ) && after == mid
            } else {
                based_prepared(r, mid, after, codec, patch, base_hash)
            },
        }
}

/// Prepares a patch that comes as a document. A base that is named must be that of the document.
fn prepare_patch_doc<S: Store<AirNode>, C: PatchCodec>(
    store: &mut S,
    codec: &C,
    bytes: &Vec<u8>,
    manifest_base: &Option<HashRef>,
    builtins: &Builtins,
) -> (r: Result<PreparedPatch, KernelError>)
    ensures
        doc_prepared(
            r,
            *old(store),
            *final(store),
            codec,
            bytes@,
            *manifest_base,
            *builtins,
        ),
{
    let ghost before = *store;
    let compiled = compile_patch_doc(store, codec, bytes, builtins);
    let ghost made = compiled;
    let ghost mid = *store;
    assert(doc_compiled(made, before, mid, codec, bytes@, *builtins));
    let (patch, base_hash) = match compiled {
        Ok(x) => x,
        Err(e) => {
            return Err(e);
        },
    };
    if let Some(expected) = manifest_base {
        if !str_eq(expected.as_str(), base_hash.as_str()) {
            return Err(
                KernelError::Manifest(
                    join4(
                        "manifest_base mismatch: expected ",
                        expected.as_str(),
                        ", got ",
                        base_hash.as_str(),
                    ),
                ),
            );
        }
    }
    let stored = store_patch(store, codec, &patch);
    let ghost kept = stored;
    let ghost whole = patch;
    let ghost named = base_hash;
    assert(patch_stored(kept, mid, *store, codec, whole));
    let patch_hash = match stored {
        Ok(h) => h,
        Err(e) => {
            assert(based_prepared(
                Err::<PreparedPatch, KernelError>(e),
                mid,
                *store,
                codec,
                whole,
                named,
            ));
            return Err(e);
        },
    };
    let loaded = load_manifest_by_hash(store, codec, &base_hash);
    let ghost found = loaded;
    assert(manifest_loaded(found, *store, codec, ref_digest(named)));
    let r = match loaded {
        Ok(base) => Ok(summarise(codec, &base, patch, patch_hash, Some(base_hash))),
        Err(e) => Err(e),
    };
    assert(based_prepared(r, mid, *store, codec, whole, named));
    r
}

/// What preparing a patch comes to: it is loaded or compiled, stored, and told with what it does to
/// its base, or to the current manifest where it names none.
pub open spec fn patch_prepared<S: Store<AirNode>, C: PatchCodec>(
    r: Result<PreparedPatch, KernelError>,
    before: S,
    after: S,
    codec: &C,
    current: Manifest,
    input: GovPatchInput,
    manifest_base: Option<HashRef>,
    builtins: Builtins,
) -> bool {
    match input {
        GovPatchInput::PatchHash(hash) => after == before && if manifest_base is Some {
            r is Err && is_manifest_error(
                r->Err_0,
                "manifest_base is not supported with patch hash input"@,
            )
        } else {
            hash_prepared(r, before, codec, current, hash)
        },
        GovPatchInput::PatchCbor(bytes) => bytes_prepared(
            r,
            before,
            after,
            codec,
            current,
            bytes@,
            manifest_base,
            builtins,
        ),
        GovPatchInput::PatchDocJson(bytes) => doc_prepared(
            r,
            before,
            after,
            codec,
            bytes@,
            manifest_base,
            builtins,
        ),
        GovPatchInput::PatchBlobRef(blob) => {
            let digest = ref_digest(blob.blob_ref);
            ||| after == before && r is Err && blob_unread(
                r->Err_0,
                before,
                digest,
                "load patch blob"@,
            )
            ||| before.blobs().contains_key(digest) && if blob.format@ == "manifest_patch_cbor"@ {
                bytes_prepared(
                    r,
                    before,
                    after,
                    codec,
                    current,
                    before.blobs()[digest],
                    manifest_base,
                    builtins,
                )
            } else if blob.format@ == "patch_doc_json"@ {
                doc_prepared(
                    r,
                    before,
                    after,
                    codec,
                    before.blobs()[digest],
                    manifest_base,
                    builtins,
                )
            } else {
                after == before && r is Err && is_manifest_error(
                    r->Err_0,
                    "unknown patch blob format '"@ + blob.format@ + "'"@,
                )
            }
        },
    }
}

/// What preparing the bytes of a patch comes to; they go with no base.
pub open spec fn bytes_prepared<S: Store<AirNode>, C: PatchCodec>(
    r: Result<PreparedPatch, KernelError>,
    before: S,
    after: S,
    codec: &C,
    current: Manifest,
    bytes: Seq<u8>,
    manifest_base: Option<HashRef>,
    builtins: Builtins,
) -> bool {
    if manifest_base is Some {
        r is Err && is_manifest_error(
            r->Err_0,
            "manifest_base is not supported with patch_cbor input"@,
        ) && after == before
    } else {
        cbor_prepared(r, before, after, codec, current, bytes, builtins)
    }
}

/// Makes a patch ready to be proposed: loads or compiles it, stores it, and says what it does to
/// its base, or to the current manifest where it names none.
pub fn prepare_patch<S: Store<AirNode>, C: PatchCodec>(
    store: &mut S,
    codec: &C,
    current: &Manifest,
    input: GovPatchInput,
    manifest_base: &Option<HashRef>,
    builtins: &Builtins,
) -> (r: Result<PreparedPatch, KernelError>)
    ensures
        patch_prepared(
            r,
            *old(store),
            *final(store),
            codec,
            *current,
            input,
            *manifest_base,
            *builtins,
        ),
        r is Ok && manifest_base is Some ==> option_hash(*manifest_base) == option_hash(
            r->Ok_0.base_manifest_hash,
        ),
        r matches Ok(p) ==> p.summary.patch_hash@ == p.patch_hash@,
{
    match input {
        GovPatchInput::PatchHash(hash) => {
            if manifest_base.is_some() {
                return Err(
                    KernelError::Manifest(
                        "manifest_base is not supported with patch hash input".to_owned(),
                    ),
                );
            }
            let loaded = load_patch_by_hash(store, codec, &hash);
            let ghost found = loaded;
            let ghost named = hash;
            let r = match loaded {
                Ok(patch) => Ok(summarise(codec, current, patch, hash, None)),
                Err(e) => Err(e),
            };
            proof {
                assert(patch_loaded(found, *store, codec, ref_digest(named)));
                assert(hash_prepared(r, *store, codec, *current, named));
            }
            r
        },
        GovPatchInput::PatchCbor(bytes) => prepare_patch_cbor(
            store,
            codec,
            current,
            &bytes,
            manifest_base,
            builtins,
        ),
        GovPatchInput::PatchDocJson(bytes) => prepare_patch_doc(
            store,
            codec,
            &bytes,
            manifest_base,
            builtins,
        ),
        GovPatchInput::PatchBlobRef(blob_ref) => {
            let bytes = match store.get_blob(digest_of(&blob_ref.blob_ref)) {
                Ok(b) => b,
                Err(e) => {
                    assert(blob_fails::<AirNode, S>(*store, ref_digest(blob_ref.blob_ref), e));
                    return Err(manifest_error("load patch blob", e.message().as_str()));
                },
            };
            if str_eq(blob_ref.format.as_str(), "manifest_patch_cbor") {
                prepare_patch_cbor(store, codec, current, &bytes, manifest_base, builtins)
            } else if str_eq(blob_ref.format.as_str(), "patch_doc_json") {
                prepare_patch_doc(store, codec, &bytes, manifest_base, builtins)
            } else {
                Err(
                    KernelError::Manifest(
                        join3("unknown patch blob format '", blob_ref.format.as_str(), "'"),
                    ),
                )
            }
        },
    }
}

/// Whether a result is the params of a proposal with their patch prepared, or what stopped that.
pub open spec fn propose_completed<S: Store<AirNode>, C: PatchCodec>(
    r: Result<GovProposeParams, KernelError>,
    before: S,
    after: S,
    codec: &C,
    current: Manifest,
    raw: GovProposeParamsRaw,
    builtins: Builtins,
) -> bool {
    exists|prepared: Result<PreparedPatch, KernelError>| #[trigger]
        patch_prepared(
            prepared,
            before,
            after,
            codec,
            current,
            raw.patch,
            raw.manifest_base,
            builtins,
        ) && match prepared {
            Err(e) => r == Err::<GovProposeParams, KernelError>(e),
            Ok(p) => is_propose_params(r, raw.manifest_base, raw.description, p),
        }
}

/// What becomes of the params of an effect before it is asked for: those of a proposal get the
/// digest and the summary of their patch.
pub fn preprocess_propose<S: Store<AirNode>, C: PatchCodec>(
    store: &mut S,
    codec: &C,
    current: &Manifest,
    raw: GovProposeParamsRaw,
    builtins: &Builtins,
) -> (r: Result<GovProposeParams, KernelError>)
    ensures
        propose_completed(r, *old(store), *final(store), codec, *current, raw, *builtins),
{
    let GovProposeParamsRaw { patch, manifest_base, description } = raw;
    let ghost before = *store;
    let prepared = prepare_patch(store, codec, current, patch, &manifest_base, builtins);
    let ghost told = prepared;
    assert(patch_prepared(
        told,
        before,
        *store,
        codec,
        *current,
        raw.patch,
        raw.manifest_base,
        *builtins,
    ));
    match prepared {
        Ok(p) => propose_params(manifest_base, description, p),
        Err(e) => Err(e),
    }
}

/// What completes the params of proposals before they are checked.
#[derive(Debug)]
pub struct GovernanceParamPreprocessor {
    pub manifest: Manifest,
}

impl GovernanceParamPreprocessor {
    pub fn new(manifest: Manifest) -> (r: Self)
        ensures
            r.manifest == manifest,
    {
        GovernanceParamPreprocessor { manifest }
    }

    /// The params of a proposal in full; the params of other effects stay as they are. `raw` is
    /// what the params hold.
    pub fn preprocess<S: Store<AirNode>, C: PatchCodec>(
        &self,
        store: &mut S,
        codec: &C,
        kind: &str,
        raw: Result<GovProposeParamsRaw, String>,
        builtins: &Builtins,
    ) -> (r: Result<Option<GovProposeParams>, KernelError>)
        ensures
            if kind@ != "governance.propose"@ {
                r matches Ok(None)
            } else {
                match raw {
                    Err(t) => r matches Err(e) && is_manifest_error(
                        e,
                        "decode gov.propose params: "@ + t@,
                    ),
                    Ok(x) => match r {
                        Ok(Some(p)) => propose_completed(
                            Ok(p),
                            *old(store),
                            *final(store),
                            codec,
                            self.manifest,
                            x,
                            *builtins,
                        ),
                        Ok(None) => false,
                        Err(e) => propose_completed(
                            Err(e),
                            *old(store),
                            *final(store),
                            codec,
                            self.manifest,
                            x,
                            *builtins,
                        ),
                    },
                }
            },
            kind@ != "governance.propose"@ || raw is Err ==> *final(store) == *old(store),
    {
        if !is_propose_kind(kind) {
            return Ok(None);
        }
        match raw {
            Err(t) => Err(KernelError::Manifest(join2("decode gov.propose params: ", t.as_str()))),
            Ok(x) => match preprocess_propose(store, codec, &self.manifest, x, builtins) {
                Ok(p) => Ok(Some(p)),
                Err(e) => Err(e),
            },
        }
    }
}

} // verus!
