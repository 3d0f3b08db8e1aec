//! The effects that the kernel handles itself.
use vstd::prelude::*;

use crate::cbor::{cbor_printed, encode_cbor, lemma_round_trips_writable, round_trips, safe_depth,
    CborTree, CborValue};
use crate::effects::EffectIntent;
use crate::error::{is_query_error, KernelError};
use crate::query::Consistency;
use crate::receipts::{EffectReceipt, ReceiptStatus};
use crate::text::{ascii_lower, decimal, join2, join3, lemma_decimal_reads_back, parse_u64, parsed_u64, starts_with, str_eq, strip_prefix,
    trim, trimmed};

pub mod dispatch;
pub mod governance;
pub mod introspect;
pub mod laws;

verus! {

/// The effects that the kernel handles itself.
#[derive(Clone, Copy, Debug, PartialEq, Eq, Structural)]
pub enum InternalEffect {
    IntrospectManifest,
    IntrospectReducerState,
    IntrospectJournalHead,
    IntrospectListCells,
    WorkspaceResolve,
    WorkspaceEmptyRoot,
    WorkspaceList,
    WorkspaceReadRef,
    WorkspaceReadBytes,
    WorkspaceWriteBytes,
    WorkspaceRemove,
    WorkspaceDiff,
    WorkspaceAnnotationsGet,
    WorkspaceAnnotationsSet,
    GovernancePropose,
    GovernanceShadow,
    GovernanceApprove,
    GovernanceApply,
}

impl InternalEffect {
    /// The kind of the effect.
    pub open spec fn kind(self) -> Seq<char> {
        match self {
            InternalEffect::IntrospectManifest => "introspect.manifest"@,
            InternalEffect::IntrospectReducerState => "introspect.reducer_state"@,
            InternalEffect::IntrospectJournalHead => "introspect.journal_head"@,
            InternalEffect::IntrospectListCells => "introspect.list_cells"@,
            InternalEffect::WorkspaceResolve => "workspace.resolve"@,
            InternalEffect::WorkspaceEmptyRoot => "workspace.empty_root"@,
            InternalEffect::WorkspaceList => "workspace.list"@,
            InternalEffect::WorkspaceReadRef => "workspace.read_ref"@,
            InternalEffect::WorkspaceReadBytes => "workspace.read_bytes"@,
            InternalEffect::WorkspaceWriteBytes => "workspace.write_bytes"@,
            InternalEffect::WorkspaceRemove => "workspace.remove"@,
            InternalEffect::WorkspaceDiff => "workspace.diff"@,
            InternalEffect::WorkspaceAnnotationsGet => "workspace.annotations_get"@,
            InternalEffect::WorkspaceAnnotationsSet => "workspace.annotations_set"@,
            InternalEffect::GovernancePropose => "governance.propose"@,
            InternalEffect::GovernanceShadow => "governance.shadow"@,
            InternalEffect::GovernanceApprove => "governance.approve"@,
            InternalEffect::GovernanceApply => "governance.apply"@,
        }
    }

    /// The effect of a kind, if the kernel handles it itself.
    pub fn from_kind(kind: &str) -> (r: Option<InternalEffect>)
        ensures
            match r {
                Some(x) => x.kind() == kind@,
                None => forall|x: InternalEffect| #[trigger] x.kind() != kind@,
            },
    {
        if str_eq(kind, "introspect.manifest") {
            Some(InternalEffect::IntrospectManifest)
        } else if str_eq(kind, "introspect.reducer_state") {
            Some(InternalEffect::IntrospectReducerState)
        } else if str_eq(kind, "introspect.journal_head") {
            Some(InternalEffect::IntrospectJournalHead)
        } else if str_eq(kind, "introspect.list_cells") {
            Some(InternalEffect::IntrospectListCells)
        } else if str_eq(kind, "workspace.resolve") {
            Some(InternalEffect::WorkspaceResolve)
        } else if str_eq(kind, "workspace.empty_root") {
            Some(InternalEffect::WorkspaceEmptyRoot)
        } else if str_eq(kind, "workspace.list") {
            Some(InternalEffect::WorkspaceList)
        } else if str_eq(kind, "workspace.read_ref") {
            Some(InternalEffect::WorkspaceReadRef)
        } else if str_eq(kind, "workspace.read_bytes") {
            Some(InternalEffect::WorkspaceReadBytes)
        } else if str_eq(kind, "workspace.write_bytes") {
            Some(InternalEffect::WorkspaceWriteBytes)
        } else if str_eq(kind, "workspace.remove") {
            Some(InternalEffect::WorkspaceRemove)
        } else if str_eq(kind, "workspace.diff") {
            Some(InternalEffect::WorkspaceDiff)
        } else if str_eq(kind, "workspace.annotations_get") {
            Some(InternalEffect::WorkspaceAnnotationsGet)
        } else if str_eq(kind, "workspace.annotations_set") {
            Some(InternalEffect::WorkspaceAnnotationsSet)
        } else if str_eq(kind, "governance.propose") {
            Some(InternalEffect::GovernancePropose)
        } else if str_eq(kind, "governance.shadow") {
            Some(InternalEffect::GovernanceShadow)
        } else if str_eq(kind, "governance.approve") {
            Some(InternalEffect::GovernanceApprove)
        } else if str_eq(kind, "governance.apply") {
            Some(InternalEffect::GovernanceApply)
        } else {
            None
        }
    }
}

/// Who signs the receipts of a kind.
pub open spec fn adapter_of(kind: Seq<char>) -> Seq<char> {
    if starts_with(kind, "governance."@) {
        "kernel.governance"@
    } else {
        "kernel.introspect"@
    }
}

/// Whether a receipt answers an intent with what its handler came to. A failure carries its text.
pub open spec fn is_internal_receipt(
    r: EffectReceipt,
    intent: EffectIntent,
    outcome: Result<Vec<u8>, KernelError>,
) -> bool {
    &&& r.intent_hash == intent.intent_hash
    &&& r.adapter_id@ == adapter_of(intent.kind@)
    &&& r.cost_cents == Some(0u64)
    &&& r.signature@ == Seq::new(64, |i: int| 0u8)
    &&& match outcome {
        Ok(payload) => r.status == ReceiptStatus::Success && r.payload_cbor == payload,
        Err(e) => r.status == ReceiptStatus::Error && cbor_printed(CborTree::Text(e.text()))
            == Ok::<Seq<u8>, Seq<char>>(r.payload_cbor@),
    }
}

fn zero_signature() -> (r: Vec<u8>)
    ensures
        r@ == Seq::new(64, |i: int| 0u8),
{
    let mut out: Vec<u8> = Vec::new();
    let mut i: usize = 0;
    while i < 64
        invariant
            i <= 64,
            out@ == Seq::new(i as nat, |i: int| 0u8),
        decreases 64 - i,
    {
        out.push(0);
        i += 1;
        assert(out@ =~= Seq::new(i as nat, |i: int| 0u8));
    }
    out
}

/// The receipt for an intent that the kernel handled itself.
pub fn internal_receipt(intent: &EffectIntent, outcome: Result<Vec<u8>, KernelError>) -> (r:
    EffectReceipt)
    ensures
        is_internal_receipt(r, *intent, outcome),
{
    let adapter = match strip_prefix(intent.kind.as_str(), "governance.") {
        Some(_) => "kernel.governance",
        None => "kernel.introspect",
    };
    let (status, payload_cbor) = match outcome {
        Ok(payload) => (ReceiptStatus::Success, payload),
        Err(e) => {
            let text = CborValue::Text(e.message());
            proof {
                assert(round_trips(text@, safe_depth()));
                lemma_round_trips_writable(text@, safe_depth());
            }
            match encode_cbor(&text) {
                Ok(b) => (ReceiptStatus::Error, b),
                Err(_) => {
                    assert(false);
                    (ReceiptStatus::Error, Vec::new())
                },
            }
        },
    };
    EffectReceipt {
        intent_hash: intent.intent_hash,
        adapter_id: adapter.to_owned(),
        status,
        payload_cbor,
        cost_cents: Some(0),
        signature: zero_signature(),
    }
}

/// What handles the effects of the kernel.
pub trait InternalHandlers {
    fn handle(&mut self, effect: InternalEffect, intent: &EffectIntent) -> Result<
        Vec<u8>,
        KernelError,
    >;
}

/// Handles an intent, if it is for the kernel itself. Whatever a handler comes to, there is a
/// receipt.
pub fn handle_internal_intent<H: InternalHandlers>(handlers: &mut H, intent: &EffectIntent) -> (r:
    Option<EffectReceipt>)
    ensures
        match r {
            None => (forall|x: InternalEffect| #[trigger] x.kind() != intent.kind@)
                && *final(handlers) == *old(handlers),
            Some(receipt) => exists|
                x: InternalEffect,
                h: &mut H,
                outcome: Result<Vec<u8>, KernelError>,
            |
                x.kind() == intent.kind@ && *h == *old(handlers) && *final(h) == *final(handlers)
                    && (#[trigger] call_ensures(H::handle, (h, x, intent), outcome))
                    && is_internal_receipt(receipt, *intent, outcome),
        },
{
    match InternalEffect::from_kind(intent.kind.as_str()) {
        None => None,
        Some(effect) => {
            let outcome = handlers.handle(effect, intent);
            let receipt = internal_receipt(intent, outcome);
            assert(is_internal_receipt(receipt, *intent, outcome));
            Some(receipt)
        },
    }
}

/// A text in lower case.
pub uninterp spec fn lowercased(s: Seq<char>) -> Seq<char>;

/// Whether all characters are ASCII.
pub open spec fn is_ascii_text(s: Seq<char>) -> bool {
    forall|i: int| 0 <= i < s.len() ==> (#[trigger] s[i]) as int <= 127
}

/// `str::to_lowercase`: of ASCII texts, the capital letters become small.
#[verifier::external_body]
fn to_lowercase(s: &str) -> (r: String)
    ensures
        r@ == lowercased(s@),
        is_ascii_text(s@) ==> r@ == s@.map_values(|c: char| ascii_lower(c)),
{
    s.to_lowercase()
}

/// The consistency that a text asks for, given the text trimmed and in lower case, or the text of
/// the error.
pub open spec fn consistency_of(value: Seq<char>, lowered: Seq<char>) -> Result<
    Consistency,
    Seq<char>,
> {
    if lowered == "head"@ {
        Ok(Consistency::Head)
    } else if starts_with(lowered, "exact:"@) {
        let rest = lowered.skip("exact:"@.len() as int);
        match parsed_u64(rest) {
            Ok(n) => Ok(Consistency::Exact(n as u64)),
            Err(e) => Err("invalid exact height '"@ + rest + "': "@ + e),
        }
    } else if starts_with(lowered, "at_least:"@) {
        let rest = lowered.skip("at_least:"@.len() as int);
        match parsed_u64(rest) {
            Ok(n) => Ok(Consistency::AtLeast(n as u64)),
            Err(e) => Err("invalid at_least height '"@ + rest + "': "@ + e),
        }
    } else {
        Err("unknown consistency '"@ + value + "'"@)
    }
}

/// The consistency that a text asks for, given the text trimmed and in lower case.
pub fn read_consistency(value: &str, lowered: &str) -> (r: Result<Consistency, KernelError>)
    ensures
        match (r, consistency_of(value@, lowered@)) {
            (Ok(c), Ok(x)) => c == x,
            (Err(e), Err(t)) => is_query_error(e, t),
            _ => false,
        },
{
    if str_eq(lowered, "head") {
        return Ok(Consistency::Head);
    }
    if let Some(rest) = strip_prefix(lowered, "exact:") {
        return match parse_u64(rest) {
            Ok(n) => Ok(Consistency::Exact(n)),
            Err(e) => {
                let head = join3("invalid exact height '", rest, "': ");
                Err(KernelError::Query(join2(head.as_str(), e.as_str())))
            },
        };
    }
    if let Some(rest) = strip_prefix(lowered, "at_least:") {
        return match parse_u64(rest) {
            Ok(n) => Ok(Consistency::AtLeast(n)),
            Err(e) => {
                let head = join3("invalid at_least height '", rest, "': ");
                Err(KernelError::Query(join2(head.as_str(), e.as_str())))
            },
        };
    }
    Err(KernelError::Query(join3("unknown consistency '", value, "'")))
}

/// The consistency that a text asks for: `head`, `exact:` or `at_least:` with a height, in letters
/// of either case and with white space around it.
pub fn parse_consistency(value: &str) -> (r: Result<Consistency, KernelError>)
    ensures
        match (r, consistency_of(value@, lowercased(trimmed(value@)))) {
            (Ok(c), Ok(x)) => c == x,
            (Err(e), Err(t)) => is_query_error(e, t),
            _ => false,
        },
        is_ascii_text(trimmed(value@)) ==> match (
            r,
            consistency_of(value@, trimmed(value@).map_values(|c: char| ascii_lower(c))),
        ) {
            (Ok(c), Ok(x)) => c == x,
            (Err(e), Err(t)) => is_query_error(e, t),
            _ => false,
        },
{
    let lowered = to_lowercase(trim(value));
    read_consistency(value, lowered.as_str())
}

/// A height that is written out is the one that is asked for.
pub proof fn lemma_heights_read_back(value: Seq<char>, n: u64)
    ensures
        consistency_of(value, "exact:"@ + decimal(n as nat)) == Ok::<Consistency, Seq<char>>(
            Consistency::Exact(n),
        ),
        consistency_of(value, "at_least:"@ + decimal(n as nat)) == Ok::<Consistency, Seq<char>>(
            Consistency::AtLeast(n),
        ),
{
    reveal_strlit("head");
    reveal_strlit("exact:");
    reveal_strlit("at_least:");
    lemma_decimal_reads_back(n as nat);
    let d = decimal(n as nat);
    let a = "exact:"@ + d;
    let b = "at_least:"@ + d;
    assert(a.skip("exact:"@.len() as int) =~= d);
    assert(b.skip("at_least:"@.len() as int) =~= d);
    assert(a.take("exact:"@.len() as int) =~= "exact:"@);
    assert(b.take("at_least:"@.len() as int) =~= "at_least:"@);
    assert(a[0] == 'e' && b[0] == 'a' && "head"@[0] == 'h');
    assert("exact:"@[0] == 'e');
    assert(!starts_with(b, "exact:"@)) by {
        if starts_with(b, "exact:"@) {
            assert(b.take("exact:"@.len() as int)[0] == b[0]);
        }
    }
}

} // verus!
