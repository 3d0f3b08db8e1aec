//! Which handler each of the kernel's own effects goes to.
use vstd::prelude::*;

use crate::air::AirNode;
use crate::effects::EffectIntent;
use crate::error::{is_manifest_error, is_query_error, KernelError};
use crate::governance::ManifestPatch;
use crate::governance_effects::{GovApprovalDecision, GovProposeParams, PatchCodec};
use crate::hash::HashRef;
use crate::internal_effects::governance::{apply_told, approve_told, handle_governance_apply,
    handle_governance_approve, handle_governance_propose, handle_governance_shadow, propose_told,
    shadow_told, GovApplyParams, GovApplyReceipt, GovApproveParams, GovApproveReceipt,
    GovProposeReceipt, GovShadowParams, GovShadowReceipt, GovernanceHost};
use crate::internal_effects::introspect::{cells_answered, handle_journal_head, handle_list_cells,
    handle_manifest, handle_reducer_state, head_told, manifest_told, state_told, CellSource,
    JournalHeadReceipt, ListCellsParams, ListCellsReceipt, ManifestParams, ManifestReceipt,
    ReducerStateParams, ReducerStateReceipt};
use crate::internal_effects::{InternalEffect, InternalHandlers};
use crate::query::{Consistency, StateRead, StateReader};
use crate::shadow::summary::ShadowSummary;
use crate::store::Store;
use crate::text::join2;
use crate::workspace::handlers::{content_told, diff_told, handle_workspace_annotations_get,
    handle_workspace_annotations_set, handle_workspace_diff, handle_workspace_empty_root,
    handle_workspace_list, handle_workspace_read_bytes, handle_workspace_read_ref,
    handle_workspace_remove, handle_workspace_resolve, handle_workspace_write_bytes, listing_told,
    notes_set_told, notes_told, ref_told, removal_told, root_told, text_of, version_told,
    write_told, WorkspaceAnnotationsSetReceipt, WorkspaceHistory, WorkspaceListParams,
    WorkspaceReadBytesRange, WorkspaceRefEntry, WorkspaceResolveReceipt,
    WorkspaceWriteBytesParams, WorkspaceWriteBytesReceipt};
use crate::workspace::list::{WorkspaceDiffChange, WorkspaceListReceipt};
use crate::workspace::notes::WorkspaceAnnotationsPatch;
use crate::workspace::{is_workspace_name, validate_workspace_name, WorkspaceAnnotations,
    WorkspaceNode};

verus! {

#[derive(Debug)]
pub struct WorkspaceResolveParams {
    pub workspace: String,
    pub version: Option<u64>,
}

#[derive(Debug)]
pub struct WorkspaceEmptyRootParams {
    pub workspace: String,
}

#[derive(Debug)]
pub struct WorkspaceReadRefParams {
    pub root_hash: String,
    pub path: String,
}

#[derive(Debug)]
pub struct WorkspaceReadBytesParams {
    pub root_hash: String,
    pub path: String,
    pub range: Option<WorkspaceReadBytesRange>,
}

#[derive(Debug)]
pub struct WorkspaceRemoveParams {
    pub root_hash: String,
    pub path: String,
}

#[derive(Debug)]
pub struct WorkspaceDiffParams {
    pub root_a: String,
    pub root_b: String,
    pub prefix: Option<String>,
}

#[derive(Debug)]
pub struct WorkspaceAnnotationsGetParams {
    pub root_hash: String,
    pub path: Option<String>,
}

#[derive(Debug)]
pub struct WorkspaceAnnotationsSetParams {
    pub root_hash: String,
    pub path: Option<String>,
    pub annotations_patch: WorkspaceAnnotationsPatch,
}

/// What an effect of the kernel's own is answered with.
#[derive(Debug)]
pub enum InternalReceipt {
    JournalHead(JournalHeadReceipt),
    Resolve(WorkspaceResolveReceipt),
    Manifest(ManifestReceipt),
    ReducerState(ReducerStateReceipt),
    ListCells(ListCellsReceipt),
    EmptyRoot(HashRef),
    List(WorkspaceListReceipt),
    ReadRef(Option<WorkspaceRefEntry>),
    ReadBytes(Vec<u8>),
    WriteBytes(WorkspaceWriteBytesReceipt),
    Remove(HashRef),
    Diff(Vec<WorkspaceDiffChange>),
    AnnotationsGet(Option<WorkspaceAnnotations>),
    AnnotationsSet(WorkspaceAnnotationsSetReceipt),
    Propose(GovProposeReceipt),
    Shadow(GovShadowReceipt),
    Approve(GovApproveReceipt),
    Apply(GovApplyReceipt),
}

/// Reading of the params of the kernel's own effects, and writing of their receipts. It also knows
/// the keys and the states of workspaces.
pub trait InternalCodec {
    fn resolve_params(&self, bytes: &Vec<u8>) -> Result<WorkspaceResolveParams, String>;

    fn manifest_params(&self, bytes: &Vec<u8>) -> Result<ManifestParams, String>;

    fn reducer_state_params(&self, bytes: &Vec<u8>) -> Result<ReducerStateParams, String>;

    fn list_cells_params(&self, bytes: &Vec<u8>) -> Result<ListCellsParams, String>;

    fn empty_root_params(&self, bytes: &Vec<u8>) -> Result<WorkspaceEmptyRootParams, String>;

    fn list_params(&self, bytes: &Vec<u8>) -> Result<WorkspaceListParams, String>;

    fn read_ref_params(&self, bytes: &Vec<u8>) -> Result<WorkspaceReadRefParams, String>;

    fn read_bytes_params(&self, bytes: &Vec<u8>) -> Result<WorkspaceReadBytesParams, String>;

    fn write_bytes_params(&self, bytes: &Vec<u8>) -> Result<WorkspaceWriteBytesParams, String>;

    fn remove_params(&self, bytes: &Vec<u8>) -> Result<WorkspaceRemoveParams, String>;

    fn diff_params(&self, bytes: &Vec<u8>) -> Result<WorkspaceDiffParams, String>;

    fn annotations_get_params(&self, bytes: &Vec<u8>) -> Result<WorkspaceAnnotationsGetParams, String>;

    fn annotations_set_params(&self, bytes: &Vec<u8>) -> Result<WorkspaceAnnotationsSetParams, String>;

    fn propose_params(&self, bytes: &Vec<u8>) -> Result<GovProposeParams, String>;

    fn shadow_params(&self, bytes: &Vec<u8>) -> Result<GovShadowParams, String>;

    fn approve_params(&self, bytes: &Vec<u8>) -> Result<GovApproveParams, String>;

    fn apply_params(&self, bytes: &Vec<u8>) -> Result<GovApplyParams, String>;

    fn receipt(&self, receipt: &InternalReceipt) -> Result<Vec<u8>, String>;

    /// The key of the cell of a workspace.
    fn workspace_key(&self, workspace: &str) -> Result<Vec<u8>, KernelError>;

    fn history(&self, bytes: &Vec<u8>) -> Result<WorkspaceHistory, String>;
}

/// Whether an outcome says that params cannot be read.
pub open spec fn params_refused(out: Result<InternalReceipt, KernelError>, why: String) -> bool {
    out is Err && is_query_error(out->Err_0, "decode params: "@ + why@)
}

fn refuse_params(why: String) -> (r: KernelError)
    ensures
        is_query_error(r, "decode params: "@ + why@),
{
    KernelError::Query(join2("decode params: ", why.as_str()))
}

/// The answer that a workspace's state holds the versions of, as the codec reads it.
pub open spec fn history_told<C: InternalCodec>(
    out: Result<InternalReceipt, KernelError>,
    codec: &C,
    p: WorkspaceResolveParams,
    state: Option<Vec<u8>>,
) -> bool {
    match state {
        None => version_answered(out, p, None),
        Some(b) => exists|told: Result<WorkspaceHistory, String>| #[trigger]
            call_ensures(C::history, (codec, &b), told) && match told {
                Err(t) => out is Err && is_query_error(
                    out->Err_0,
                    "decode workspace history: "@ + t@,
                ),
                Ok(h) => version_answered(out, p, Some(&h)),
            },
    }
}

pub open spec fn version_answered(
    out: Result<InternalReceipt, KernelError>,
    p: WorkspaceResolveParams,
    history: Option<&WorkspaceHistory>,
) -> bool {
    exists|x: Result<WorkspaceResolveReceipt, KernelError>| #[trigger]
        version_told(x, p.workspace@, p.version, history) && match x {
            Ok(y) => out == Ok::<InternalReceipt, KernelError>(InternalReceipt::Resolve(y)),
            Err(e) => out == Err::<InternalReceipt, KernelError>(e),
        }
}

/// What finding a version of a workspace comes to: the state of its cell is read, and its history.
pub open spec fn workspace_told<K: StateReader, C: InternalCodec>(
    out: Result<InternalReceipt, KernelError>,
    reader: &K,
    codec: &C,
    p: WorkspaceResolveParams,
) -> bool {
    if !is_workspace_name(p.workspace@) {
        out is Err && is_query_error(out->Err_0, "invalid workspace name"@)
    } else {
        exists|name: &str, key: Result<Vec<u8>, KernelError>|
            name@ == p.workspace@ && #[trigger] call_ensures(C::workspace_key, (codec, name), key)
                && match key {
                Err(e) => out == Err::<InternalReceipt, KernelError>(e),
                Ok(k) => cell_told(out, reader, codec, p, k),
            }
    }
}

pub open spec fn cell_told<K: StateReader, C: InternalCodec>(
    out: Result<InternalReceipt, KernelError>,
    reader: &K,
    codec: &C,
    p: WorkspaceResolveParams,
    key: Vec<u8>,
) -> bool {
    exists|module: &str, read: Result<StateRead<Option<Vec<u8>>>, KernelError>|
        module@ == "sys/Workspace@1"@ && #[trigger] call_ensures(
            K::get_reducer_state,
            (reader, module, &Some(key), Consistency::Head),
            read,
        ) && match read {
            Err(e) => out == Err::<InternalReceipt, KernelError>(e),
            Ok(v) => history_told(out, codec, p, v.value),
        }
}

/// Whether an outcome is that of the effect by which a version of a workspace is found.
pub open spec fn resolve_handled<K: StateReader, C: InternalCodec>(
    out: Result<InternalReceipt, KernelError>,
    reader: &K,
    codec: &C,
    bytes: Vec<u8>,
) -> bool {
    exists|told: Result<WorkspaceResolveParams, String>| #[trigger]
        call_ensures(C::resolve_params, (codec, &bytes), told) && match told {
            Err(t) => params_refused(out, t),
            Ok(p) => workspace_told(out, reader, codec, p),
        }
}

fn resolve_workspace<K: StateReader, C: InternalCodec>(
    reader: &K,
    codec: &C,
    bytes: &Vec<u8>,
) -> (out: Result<InternalReceipt, KernelError>)
    ensures
        resolve_handled(out, reader, codec, *bytes),
{
    let read = codec.resolve_params(bytes);
    let ghost params = read;
    assert(call_ensures(C::resolve_params, (codec, bytes), params));
    let p = match read {
        Ok(p) => p,
        Err(t) => {
            return Err(refuse_params(t));
        },
    };
    match validate_workspace_name(p.workspace.as_str()) {
        Ok(_) => {},
        Err(e) => {
            return Err(e);
        },
    }
    let name = p.workspace.as_str();
    let keyed = codec.workspace_key(name);
    let ghost key = keyed;
    assert(call_ensures(C::workspace_key, (codec, name), key));
    let found = match keyed {
        Ok(k) => k,
        Err(e) => {
            return Err(e);
        },
    };
    let wanted = Some(found);
    let module = "sys/Workspace@1";
    let state = reader.get_reducer_state(module, &wanted, Consistency::Head);
    let ghost told = state;
    assert(call_ensures(
        K::get_reducer_state,
        (reader, module, &wanted, Consistency::Head),
        told,
    ));
    let value = match state {
        Ok(v) => v.value,
        Err(e) => {
            let out = Err(e);
            assert(cell_told(out, reader, codec, p, key->Ok_0));
            return out;
        },
    };
    let ghost held = value;
    let out = read_history(codec, &p, value);
    assert(history_told(out, codec, p, held));
    assert(cell_told(out, reader, codec, p, key->Ok_0));
    out
}

fn read_history<C: InternalCodec>(
    codec: &C,
    p: &WorkspaceResolveParams,
    state: Option<Vec<u8>>,
) -> (out: Result<InternalReceipt, KernelError>)
    ensures
        history_told(out, codec, *p, state),
{
    match state {
        None => find_version(p, None),
        Some(b) => {
            let read = codec.history(&b);
            let ghost told = read;
            assert(call_ensures(C::history, (codec, &b), told));
            match read {
                Err(t) => Err(
                    KernelError::Query(join2("decode workspace history: ", t.as_str())),
                ),
                Ok(h) => find_version(p, Some(&h)),
            }
        },
    }
}

fn find_version(p: &WorkspaceResolveParams, history: Option<&WorkspaceHistory>) -> (out: Result<
    InternalReceipt,
    KernelError,
>)
    ensures
        version_answered(out, *p, history),
{
    let x = handle_workspace_resolve(p.workspace.as_str(), p.version, history);
    let ghost found = x;
    assert(version_told(found, p.workspace@, p.version, history));
    match x {
        Ok(y) => Ok(InternalReceipt::Resolve(y)),
        Err(e) => Err(e),
    }
}

/// Whether an outcome is that of the effect by which the manifest is read.
pub open spec fn manifest_handled<K: StateReader, C: InternalCodec>(
    out: Result<InternalReceipt, KernelError>,
    reader: &K,
    codec: &C,
    bytes: Vec<u8>,
) -> bool {
    exists|told: Result<ManifestParams, String>| #[trigger]
        call_ensures(C::manifest_params, (codec, &bytes), told) && match told {
            Err(t) => params_refused(out, t),
            Ok(p) => exists|x: Result<ManifestReceipt, KernelError>| #[trigger]
                manifest_told(x, reader, p) && match x {
                    Ok(y) => out == Ok::<InternalReceipt, KernelError>(InternalReceipt::Manifest(y)),
                    Err(e) => out == Err::<InternalReceipt, KernelError>(e),
                },
        }
}

fn manifest_of<K: StateReader, C: InternalCodec>(
    reader: &K,
    codec: &C,
    bytes: &Vec<u8>,
) -> (out: Result<InternalReceipt, KernelError>)
    ensures
        manifest_handled(out, reader, codec, *bytes),
{
    let read = codec.manifest_params(bytes);
    let ghost params = read;
    assert(call_ensures(C::manifest_params, (codec, bytes), params));
    let p = match read {
        Ok(p) => p,
        Err(t) => {
            return Err(refuse_params(t));
        },
    };
    let x = handle_manifest(reader, &p);
    let ghost found = x;
    assert(manifest_told(found, reader, p));
    match x {
        Ok(y) => Ok(InternalReceipt::Manifest(y)),
        Err(e) => Err(e),
    }
}

/// Whether an outcome is that of the effect by which the state of a reducer is read.
pub open spec fn reducer_state_handled<K: StateReader, C: InternalCodec>(
    out: Result<InternalReceipt, KernelError>,
    reader: &K,
    codec: &C,
    bytes: Vec<u8>,
) -> bool {
    exists|told: Result<ReducerStateParams, String>| #[trigger]
        call_ensures(C::reducer_state_params, (codec, &bytes), told) && match told {
            Err(t) => params_refused(out, t),
            Ok(p) => exists|x: Result<ReducerStateReceipt, KernelError>| #[trigger]
                state_told(x, reader, p) && match x {
                    Ok(y) => out == Ok::<InternalReceipt, KernelError>(InternalReceipt::ReducerState(y)),
                    Err(e) => out == Err::<InternalReceipt, KernelError>(e),
                },
        }
}

fn reducer_state_of<K: StateReader, C: InternalCodec>(
    reader: &K,
    codec: &C,
    bytes: &Vec<u8>,
) -> (out: Result<InternalReceipt, KernelError>)
    ensures
        reducer_state_handled(out, reader, codec, *bytes),
{
    let read = codec.reducer_state_params(bytes);
    let ghost params = read;
    assert(call_ensures(C::reducer_state_params, (codec, bytes), params));
    let p = match read {
        Ok(p) => p,
        Err(t) => {
            return Err(refuse_params(t));
        },
    };
    let x = handle_reducer_state(reader, &p);
    let ghost found = x;
    assert(state_told(found, reader, p));
    match x {
        Ok(y) => Ok(InternalReceipt::ReducerState(y)),
        Err(e) => Err(e),
    }
}

/// Whether an outcome is that of the effect by which the cells of a reducer are listed.
pub open spec fn list_cells_handled<K: CellSource, C: InternalCodec>(
    out: Result<InternalReceipt, KernelError>,
    reader: &K,
    codec: &C,
    bytes: Vec<u8>,
) -> bool {
    exists|told: Result<ListCellsParams, String>| #[trigger]
        call_ensures(C::list_cells_params, (codec, &bytes), told) && match told {
            Err(t) => params_refused(out, t),
            Ok(p) => exists|x: Result<ListCellsReceipt, KernelError>| #[trigger]
                cells_answered(reader, p.reducer@, x) && match x {
                    Ok(y) => out == Ok::<InternalReceipt, KernelError>(InternalReceipt::ListCells(y)),
                    Err(e) => out == Err::<InternalReceipt, KernelError>(e),
                },
        }
}

fn list_cells_of<K: CellSource, C: InternalCodec>(
    reader: &K,
    codec: &C,
    bytes: &Vec<u8>,
) -> (out: Result<InternalReceipt, KernelError>)
    ensures
        list_cells_handled(out, reader, codec, *bytes),
{
    let read = codec.list_cells_params(bytes);
    let ghost params = read;
    assert(call_ensures(C::list_cells_params, (codec, bytes), params));
    let p = match read {
        Ok(p) => p,
        Err(t) => {
            return Err(refuse_params(t));
        },
    };
    let x = handle_list_cells(reader, &p);
    let ghost found = x;
    assert(cells_answered(reader, p.reducer@, found));
    match x {
        Ok(y) => Ok(InternalReceipt::ListCells(y)),
        Err(e) => Err(e),
    }
}

/// Whether an outcome is that of the effect by which a workspace is begun.
pub open spec fn empty_root_handled<W: Store<WorkspaceNode>, C: InternalCodec>(
    out: Result<InternalReceipt, KernelError>,
    before: W,
    after: W,
    codec: &C,
    bytes: Vec<u8>,
) -> bool {
    exists|told: Result<WorkspaceEmptyRootParams, String>| #[trigger]
        call_ensures(C::empty_root_params, (codec, &bytes), told) && match told {
            Err(t) => params_refused(out, t) && after == before,
            Ok(p) => exists|x: Result<HashRef, KernelError>| #[trigger]
                root_told(x, before, after, p.workspace@) && match x {
                    Ok(y) => out == Ok::<InternalReceipt, KernelError>(InternalReceipt::EmptyRoot(y)),
                    Err(e) => out == Err::<InternalReceipt, KernelError>(e),
                },
        }
}

fn empty_root_of<W: Store<WorkspaceNode>, C: InternalCodec>(
    store: &mut W,
    codec: &C,
    bytes: &Vec<u8>,
) -> (out: Result<InternalReceipt, KernelError>)
    ensures
        empty_root_handled(out, *old(store), *final(store), codec, *bytes),
{
    let ghost start = *store;
    let read = codec.empty_root_params(bytes);
    let ghost params = read;
    assert(call_ensures(C::empty_root_params, (codec, bytes), params));
    let p = match read {
        Ok(p) => p,
        Err(t) => {
            return Err(refuse_params(t));
        },
    };
    let x = handle_workspace_empty_root(store, p.workspace.as_str());
    let ghost found = x;
    assert(root_told(found, start, *store, p.workspace@));
    match x {
        Ok(y) => Ok(InternalReceipt::EmptyRoot(y)),
        Err(e) => Err(e),
    }
}

/// Whether an outcome is that of the effect by which a directory is listed.
pub open spec fn list_handled<W: Store<WorkspaceNode>, C: InternalCodec>(
    out: Result<InternalReceipt, KernelError>,
    store: &W,
    codec: &C,
    bytes: Vec<u8>,
) -> bool {
    exists|told: Result<WorkspaceListParams, String>| #[trigger]
        call_ensures(C::list_params, (codec, &bytes), told) && match told {
            Err(t) => params_refused(out, t),
            Ok(p) => exists|x: Result<WorkspaceListReceipt, KernelError>| #[trigger]
                listing_told(x, *store, p) && match x {
                    Ok(y) => out == Ok::<InternalReceipt, KernelError>(InternalReceipt::List(y)),
                    Err(e) => out == Err::<InternalReceipt, KernelError>(e),
                },
        }
}

fn list_of<W: Store<WorkspaceNode>, C: InternalCodec>(
    store: &W,
    codec: &C,
    bytes: &Vec<u8>,
) -> (out: Result<InternalReceipt, KernelError>)
    ensures
        list_handled(out, store, codec, *bytes),
{
    let read = codec.list_params(bytes);
    let ghost params = read;
    assert(call_ensures(C::list_params, (codec, bytes), params));
    let p = match read {
        Ok(p) => p,
        Err(t) => {
            return Err(refuse_params(t));
        },
    };
    let x = handle_workspace_list(store, &p);
    let ghost found = x;
    assert(listing_told(found, *store, p));
    match x {
        Ok(y) => Ok(InternalReceipt::List(y)),
        Err(e) => Err(e),
    }
}

/// Whether an outcome is that of the effect by which what is at a path is looked up.
pub open spec fn read_ref_handled<W: Store<WorkspaceNode>, C: InternalCodec>(
    out: Result<InternalReceipt, KernelError>,
    store: &W,
    codec: &C,
    bytes: Vec<u8>,
) -> bool {
    exists|told: Result<WorkspaceReadRefParams, String>| #[trigger]
        call_ensures(C::read_ref_params, (codec, &bytes), told) && match told {
            Err(t) => params_refused(out, t),
            Ok(p) => exists|x: Result<Option<WorkspaceRefEntry>, KernelError>| #[trigger]
                ref_told(x, *store, p.root_hash@, p.path@) && match x {
                    Ok(y) => out == Ok::<InternalReceipt, KernelError>(InternalReceipt::ReadRef(y)),
                    Err(e) => out == Err::<InternalReceipt, KernelError>(e),
                },
        }
}

fn read_ref_of<W: Store<WorkspaceNode>, C: InternalCodec>(
    store: &W,
    codec: &C,
    bytes: &Vec<u8>,
) -> (out: Result<InternalReceipt, KernelError>)
    ensures
        read_ref_handled(out, store, codec, *bytes),
{
    let read = codec.read_ref_params(bytes);
    let ghost params = read;
    assert(call_ensures(C::read_ref_params, (codec, bytes), params));
    let p = match read {
        Ok(p) => p,
        Err(t) => {
            return Err(refuse_params(t));
        },
    };
    let x = handle_workspace_read_ref(
        store,
        p.root_hash.as_str(),
        p.path.as_str(),
    );
    let ghost found = x;
    assert(ref_told(found, *store, p.root_hash@, p.path@));
    match x {
        Ok(y) => Ok(InternalReceipt::ReadRef(y)),
        Err(e) => Err(e),
    }
}

/// Whether an outcome is that of the effect by which a file is read.
pub open spec fn read_bytes_handled<W: Store<WorkspaceNode>, C: InternalCodec>(
    out: Result<InternalReceipt, KernelError>,
    store: &W,
    codec: &C,
    bytes: Vec<u8>,
) -> bool {
    exists|told: Result<WorkspaceReadBytesParams, String>| #[trigger]
        call_ensures(C::read_bytes_params, (codec, &bytes), told) && match told {
            Err(t) => params_refused(out, t),
            Ok(p) => exists|x: Result<Vec<u8>, KernelError>| #[trigger]
                content_told(x, *store, p.root_hash@, p.path@, p.range) && match x {
                    Ok(y) => out == Ok::<InternalReceipt, KernelError>(InternalReceipt::ReadBytes(y)),
                    Err(e) => out == Err::<InternalReceipt, KernelError>(e),
                },
        }
}

fn read_bytes_of<W: Store<WorkspaceNode>, C: InternalCodec>(
    store: &W,
    codec: &C,
    bytes: &Vec<u8>,
) -> (out: Result<InternalReceipt, KernelError>)
    ensures
        read_bytes_handled(out, store, codec, *bytes),
{
    let read = codec.read_bytes_params(bytes);
    let ghost params = read;
    assert(call_ensures(C::read_bytes_params, (codec, bytes), params));
    let p = match read {
        Ok(p) => p,
        Err(t) => {
            return Err(refuse_params(t));
        },
    };
    let x = handle_workspace_read_bytes(
        store,
        p.root_hash.as_str(),
        p.path.as_str(),
        p.range,
    );
    let ghost found = x;
    assert(content_told(found, *store, p.root_hash@, p.path@, p.range));
    match x {
        Ok(y) => Ok(InternalReceipt::ReadBytes(y)),
        Err(e) => Err(e),
    }
}

/// Whether an outcome is that of the effect by which a file is written.
pub open spec fn write_bytes_handled<W: Store<WorkspaceNode>, C: InternalCodec>(
    out: Result<InternalReceipt, KernelError>,
    before: W,
    after: W,
    codec: &C,
    bytes: Vec<u8>,
) -> bool {
    exists|told: Result<WorkspaceWriteBytesParams, String>| #[trigger]
        call_ensures(C::write_bytes_params, (codec, &bytes), told) && match told {
            Err(t) => params_refused(out, t) && after == before,
            Ok(p) => exists|x: Result<WorkspaceWriteBytesReceipt, KernelError>| #[trigger]
                write_told(x, before, after, p) && match x {
                    Ok(y) => out == Ok::<InternalReceipt, KernelError>(InternalReceipt::WriteBytes(y)),
                    Err(e) => out == Err::<InternalReceipt, KernelError>(e),
                },
        }
}

fn write_bytes_of<W: Store<WorkspaceNode>, C: InternalCodec>(
    store: &mut W,
    codec: &C,
    bytes: &Vec<u8>,
) -> (out: Result<InternalReceipt, KernelError>)
    ensures
        write_bytes_handled(out, *old(store), *final(store), codec, *bytes),
{
    let ghost start = *store;
    let read = codec.write_bytes_params(bytes);
    let ghost params = read;
    assert(call_ensures(C::write_bytes_params, (codec, bytes), params));
    let p = match read {
        Ok(p) => p,
        Err(t) => {
            return Err(refuse_params(t));
        },
    };
    let x = handle_workspace_write_bytes(store, &p);
    let ghost found = x;
    assert(write_told(found, start, *store, p));
    match x {
        Ok(y) => Ok(InternalReceipt::WriteBytes(y)),
        Err(e) => Err(e),
    }
}

/// Whether an outcome is that of the effect by which what is at a path is removed.
pub open spec fn remove_handled<W: Store<WorkspaceNode>, C: InternalCodec>(
    out: Result<InternalReceipt, KernelError>,
    before: W,
    after: W,
    codec: &C,
    bytes: Vec<u8>,
) -> bool {
    exists|told: Result<WorkspaceRemoveParams, String>| #[trigger]
        call_ensures(C::remove_params, (codec, &bytes), told) && match told {
            Err(t) => params_refused(out, t) && after == before,
            Ok(p) => exists|x: Result<HashRef, KernelError>| #[trigger]
                removal_told(x, before, after, p.root_hash@, p.path@) && match x {
                    Ok(y) => out == Ok::<InternalReceipt, KernelError>(InternalReceipt::Remove(y)),
                    Err(e) => out == Err::<InternalReceipt, KernelError>(e),
                },
        }
}

fn remove_of<W: Store<WorkspaceNode>, C: InternalCodec>(
    store: &mut W,
    codec: &C,
    bytes: &Vec<u8>,
) -> (out: Result<InternalReceipt, KernelError>)
    ensures
        remove_handled(out, *old(store), *final(store), codec, *bytes),
{
    let ghost start = *store;
    let read = codec.remove_params(bytes);
    let ghost params = read;
    assert(call_ensures(C::remove_params, (codec, bytes), params));
    let p = match read {
        Ok(p) => p,
        Err(t) => {
            return Err(refuse_params(t));
        },
    };
    let x = handle_workspace_remove(
        store,
        p.root_hash.as_str(),
        p.path.as_str(),
    );
    let ghost found = x;
    assert(removal_told(found, start, *store, p.root_hash@, p.path@));
    match x {
        Ok(y) => Ok(InternalReceipt::Remove(y)),
        Err(e) => Err(e),
    }
}

/// Whether an outcome is that of the effect by which two trees are compared.
pub open spec fn diff_handled<W: Store<WorkspaceNode>, C: InternalCodec>(
    out: Result<InternalReceipt, KernelError>,
    store: &W,
    codec: &C,
    bytes: Vec<u8>,
) -> bool {
    exists|told: Result<WorkspaceDiffParams, String>| #[trigger]
        call_ensures(C::diff_params, (codec, &bytes), told) && match told {
            Err(t) => params_refused(out, t),
            Ok(p) => exists|x: Result<Vec<WorkspaceDiffChange>, KernelError>| #[trigger]
                diff_told(x, *store, p.root_a@, p.root_b@, text_of(p.prefix)) && match x {
                    Ok(y) => out == Ok::<InternalReceipt, KernelError>(InternalReceipt::Diff(y)),
                    Err(e) => out == Err::<InternalReceipt, KernelError>(e),
                },
        }
}

fn diff_of<W: Store<WorkspaceNode>, C: InternalCodec>(
    store: &W,
    codec: &C,
    bytes: &Vec<u8>,
) -> (out: Result<InternalReceipt, KernelError>)
    ensures
        diff_handled(out, store, codec, *bytes),
{
    let read = codec.diff_params(bytes);
    let ghost params = read;
    assert(call_ensures(C::diff_params, (codec, bytes), params));
    let p = match read {
        Ok(p) => p,
        Err(t) => {
            return Err(refuse_params(t));
        },
    };
    let x = handle_workspace_diff(
        store,
        p.root_a.as_str(),
        p.root_b.as_str(),
        &p.prefix,
    );
    let ghost found = x;
    assert(diff_told(found, *store, p.root_a@, p.root_b@, text_of(p.prefix)));
    match x {
        Ok(y) => Ok(InternalReceipt::Diff(y)),
        Err(e) => Err(e),
    }
}

/// Whether an outcome is that of the effect by which notes are read.
pub open spec fn annotations_get_handled<W: Store<WorkspaceNode>, C: InternalCodec>(
    out: Result<InternalReceipt, KernelError>,
    store: &W,
    codec: &C,
    bytes: Vec<u8>,
) -> bool {
    exists|told: Result<WorkspaceAnnotationsGetParams, String>| #[trigger]
        call_ensures(C::annotations_get_params, (codec, &bytes), told) && match told {
            Err(t) => params_refused(out, t),
            Ok(p) => exists|x: Result<Option<WorkspaceAnnotations>, KernelError>| #[trigger]
                notes_told(x, *store, p.root_hash@, text_of(p.path)) && match x {
                    Ok(y) => out == Ok::<InternalReceipt, KernelError>(InternalReceipt::AnnotationsGet(y)),
                    Err(e) => out == Err::<InternalReceipt, KernelError>(e),
                },
        }
}

fn annotations_get_of<W: Store<WorkspaceNode>, C: InternalCodec>(
    store: &W,
    codec: &C,
    bytes: &Vec<u8>,
) -> (out: Result<InternalReceipt, KernelError>)
    ensures
        annotations_get_handled(out, store, codec, *bytes),
{
    let read = codec.annotations_get_params(bytes);
    let ghost params = read;
    assert(call_ensures(C::annotations_get_params, (codec, bytes), params));
    let p = match read {
        Ok(p) => p,
        Err(t) => {
            return Err(refuse_params(t));
        },
    };
    let x = handle_workspace_annotations_get(store, p.root_hash.as_str(), &p.path);
    let ghost found = x;
    assert(notes_told(found, *store, p.root_hash@, text_of(p.path)));
    match x {
        Ok(y) => Ok(InternalReceipt::AnnotationsGet(y)),
        Err(e) => Err(e),
    }
}

/// Whether an outcome is that of the effect by which notes are changed.
pub open spec fn annotations_set_handled<W: Store<WorkspaceNode>, C: InternalCodec>(
    out: Result<InternalReceipt, KernelError>,
    before: W,
    after: W,
    codec: &C,
    bytes: Vec<u8>,
) -> bool {
    exists|told: Result<WorkspaceAnnotationsSetParams, String>| #[trigger]
        call_ensures(C::annotations_set_params, (codec, &bytes), told) && match told {
            Err(t) => params_refused(out, t) && after == before,
            Ok(p) => exists|x: Result<WorkspaceAnnotationsSetReceipt, KernelError>| #[trigger]
                notes_set_told(x, before, after, p.root_hash@, text_of(p.path), p.annotations_patch@) && match x {
                    Ok(y) => out == Ok::<InternalReceipt, KernelError>(InternalReceipt::AnnotationsSet(y)),
                    Err(e) => out == Err::<InternalReceipt, KernelError>(e),
                },
        }
}

fn annotations_set_of<W: Store<WorkspaceNode>, C: InternalCodec>(
    store: &mut W,
    codec: &C,
    bytes: &Vec<u8>,
) -> (out: Result<InternalReceipt, KernelError>)
    ensures
        annotations_set_handled(out, *old(store), *final(store), codec, *bytes),
{
    let ghost start = *store;
    let read = codec.annotations_set_params(bytes);
    let ghost params = read;
    assert(call_ensures(C::annotations_set_params, (codec, bytes), params));
    let p = match read {
        Ok(p) => p,
        Err(t) => {
            return Err(refuse_params(t));
        },
    };
    let x = handle_workspace_annotations_set(
        store,
        p.root_hash.as_str(),
        &p.path,
        &p.annotations_patch,
    );
    let ghost found = x;
    assert(notes_set_told(found, start, *store, p.root_hash@, text_of(p.path), p.annotations_patch@));
    match x {
        Ok(y) => Ok(InternalReceipt::AnnotationsSet(y)),
        Err(e) => Err(e),
    }
}

/// Whether an outcome is that of the effect by which a patch is proposed.
pub open spec fn propose_handled<A: Store<AirNode>, P: PatchCodec, G: GovernanceHost, C: InternalCodec>(
    out: Result<InternalReceipt, KernelError>,
    defs: &A,
    patches: &P,
    before: G,
    after: G,
    codec: &C,
    bytes: Vec<u8>,
) -> bool {
    exists|told: Result<GovProposeParams, String>| #[trigger]
        call_ensures(C::propose_params, (codec, &bytes), told) && match told {
            Err(t) => params_refused(out, t) && after == before,
            Ok(p) => exists|x: Result<GovProposeReceipt, KernelError>| #[trigger]
                propose_told(x, *defs, patches, before, after, p) && match x {
                    Ok(y) => out == Ok::<InternalReceipt, KernelError>(InternalReceipt::Propose(y)),
                    Err(e) => out == Err::<InternalReceipt, KernelError>(e),
                },
        }
}

fn propose_of<A: Store<AirNode>, P: PatchCodec, G: GovernanceHost, C: InternalCodec>(
    defs: &A,
    patches: &P,
    host: &mut G,
    codec: &C,
    bytes: &Vec<u8>,
) -> (out: Result<InternalReceipt, KernelError>)
    ensures
        propose_handled(out, defs, patches, *old(host), *final(host), codec, *bytes),
        out is Ok || *final(host) != *old(host) ==> exists|p: GovProposeParams|
            (#[trigger] call_ensures(C::propose_params, (codec, bytes), Ok::<GovProposeParams, String>(p)))
                && (exists|h: &mut G, patch: ManifestPatch, told: Result<u64, KernelError>|
                *h == *old(host) && *final(h) == *final(host) && (#[trigger] call_ensures(
                    G::submit_proposal,
                    (h, patch, p.description),
                    told,
                ))),
{
    let ghost start = *host;
    let read = codec.propose_params(bytes);
    let ghost params = read;
    assert(call_ensures(C::propose_params, (codec, bytes), params));
    let p = match read {
        Ok(p) => p,
        Err(t) => {
            return Err(refuse_params(t));
        },
    };
    let x = handle_governance_propose(defs, patches, host, &p);
    let ghost found = x;
    assert(propose_told(found, *defs, patches, start, *host, p));
    match x {
        Ok(y) => Ok(InternalReceipt::Propose(y)),
        Err(e) => Err(e),
    }
}

/// Whether an outcome is that of the effect by which a proposal is tried.
pub open spec fn shadow_handled<G: GovernanceHost, C: InternalCodec>(
    out: Result<InternalReceipt, KernelError>,
    before: G,
    after: G,
    codec: &C,
    bytes: Vec<u8>,
) -> bool {
    exists|told: Result<GovShadowParams, String>| #[trigger]
        call_ensures(C::shadow_params, (codec, &bytes), told) && match told {
            Err(t) => params_refused(out, t) && after == before,
            Ok(p) => exists|x: Result<GovShadowReceipt, KernelError>| #[trigger]
                shadow_told(x, before, p) && match x {
                    Ok(y) => out == Ok::<InternalReceipt, KernelError>(InternalReceipt::Shadow(y)),
                    Err(e) => out == Err::<InternalReceipt, KernelError>(e),
                },
        }
}

fn shadow_of<G: GovernanceHost, C: InternalCodec>(
    host: &mut G,
    codec: &C,
    bytes: &Vec<u8>,
) -> (out: Result<InternalReceipt, KernelError>)
    ensures
        shadow_handled(out, *old(host), *final(host), codec, *bytes),
        out is Ok || *final(host) != *old(host) ==> exists|p: GovShadowParams|
            (#[trigger] call_ensures(C::shadow_params, (codec, bytes), Ok::<GovShadowParams, String>(p)))
                && (exists|h: &mut G, told: Result<ShadowSummary, KernelError>|
                *h == *old(host) && *final(h) == *final(host) && (#[trigger] call_ensures(
                    G::run_shadow,
                    (h, p.proposal_id),
                    told,
                ))),
{
    let ghost start = *host;
    let read = codec.shadow_params(bytes);
    let ghost params = read;
    assert(call_ensures(C::shadow_params, (codec, bytes), params));
    let p = match read {
        Ok(p) => p,
        Err(t) => {
            return Err(refuse_params(t));
        },
    };
    let x = handle_governance_shadow(host, &p);
    let ghost found = x;
    assert(shadow_told(found, start, p));
    match x {
        Ok(y) => Ok(InternalReceipt::Shadow(y)),
        Err(e) => Err(e),
    }
}

/// Whether an outcome is that of the effect by which a proposal is decided on.
pub open spec fn approve_handled<G: GovernanceHost, C: InternalCodec>(
    out: Result<InternalReceipt, KernelError>,
    before: G,
    after: G,
    codec: &C,
    bytes: Vec<u8>,
) -> bool {
    exists|told: Result<GovApproveParams, String>| #[trigger]
        call_ensures(C::approve_params, (codec, &bytes), told) && match told {
            Err(t) => params_refused(out, t) && after == before,
            Ok(p) => exists|x: Result<GovApproveReceipt, KernelError>| #[trigger]
                approve_told(x, before, after, p) && match x {
                    Ok(y) => out == Ok::<InternalReceipt, KernelError>(InternalReceipt::Approve(y)),
                    Err(e) => out == Err::<InternalReceipt, KernelError>(e),
                },
        }
}

fn approve_of<G: GovernanceHost, C: InternalCodec>(
    host: &mut G,
    codec: &C,
    bytes: &Vec<u8>,
) -> (out: Result<InternalReceipt, KernelError>)
    ensures
        approve_handled(out, *old(host), *final(host), codec, *bytes),
        out is Ok || *final(host) != *old(host) ==> exists|p: GovApproveParams|
            (#[trigger] call_ensures(C::approve_params, (codec, bytes), Ok::<GovApproveParams, String>(p)))
                && match p.decision {
            GovApprovalDecision::Approve => (exists|h: &mut G, told: Result<(), KernelError>|
                *h == *old(host) && *final(h) == *final(host) && (#[trigger] call_ensures(
                    G::approve_proposal,
                    (h, p.proposal_id, p.approver),
                    told,
                ))),
            GovApprovalDecision::Reject => (exists|h: &mut G, told: Result<(), KernelError>|
                *h == *old(host) && *final(h) == *final(host) && (#[trigger] call_ensures(
                    G::reject_proposal,
                    (h, p.proposal_id, p.approver),
                    told,
                ))),
        },
{
    let ghost start = *host;
    let read = codec.approve_params(bytes);
    let ghost params = read;
    assert(call_ensures(C::approve_params, (codec, bytes), params));
    let p = match read {
        Ok(p) => p,
        Err(t) => {
            return Err(refuse_params(t));
        },
    };
    let x = handle_governance_approve(host, &p);
    let ghost found = x;
    assert(approve_told(found, start, *host, p));
    match x {
        Ok(y) => Ok(InternalReceipt::Approve(y)),
        Err(e) => Err(e),
    }
}

/// Whether an outcome is that of the effect by which a proposal is applied.
pub open spec fn apply_handled<G: GovernanceHost, C: InternalCodec>(
    out: Result<InternalReceipt, KernelError>,
    before: G,
    after: G,
    codec: &C,
    bytes: Vec<u8>,
) -> bool {
    exists|told: Result<GovApplyParams, String>| #[trigger]
        call_ensures(C::apply_params, (codec, &bytes), told) && match told {
            Err(t) => params_refused(out, t) && after == before,
            Ok(p) => exists|x: Result<GovApplyReceipt, KernelError>| #[trigger]
                apply_told(x, before, after, p) && match x {
                    Ok(y) => out == Ok::<InternalReceipt, KernelError>(InternalReceipt::Apply(y)),
                    Err(e) => out == Err::<InternalReceipt, KernelError>(e),
                },
        }
}

fn apply_of<G: GovernanceHost, C: InternalCodec>(
    host: &mut G,
    codec: &C,
    bytes: &Vec<u8>,
) -> (out: Result<InternalReceipt, KernelError>)
    ensures
        apply_handled(out, *old(host), *final(host), codec, *bytes),
        out is Ok || *final(host) != *old(host) ==> exists|p: GovApplyParams|
            (#[trigger] call_ensures(C::apply_params, (codec, bytes), Ok::<GovApplyParams, String>(p)))
                && (exists|h: &mut G, told: Result<(), KernelError>|
                *h == *old(host) && *final(h) == *final(host) && (#[trigger] call_ensures(
                    G::apply_proposal,
                    (h, p.proposal_id),
                    told,
                ))),
{
    let ghost start = *host;
    let read = codec.apply_params(bytes);
    let ghost params = read;
    assert(call_ensures(C::apply_params, (codec, bytes), params));
    let p = match read {
        Ok(p) => p,
        Err(t) => {
            return Err(refuse_params(t));
        },
    };
    let x = handle_governance_apply(host, &p);
    let ghost found = x;
    assert(apply_told(found, start, *host, p));
    match x {
        Ok(y) => Ok(InternalReceipt::Apply(y)),
        Err(e) => Err(e),
    }
}

/// Whether bytes are the receipt of an outcome, as the codec writes it, or the error.
pub open spec fn replied<C: InternalCodec>(
    r: Result<Vec<u8>, KernelError>,
    codec: &C,
    out: Result<InternalReceipt, KernelError>,
) -> bool {
    match out {
        Err(e) => r == Err::<Vec<u8>, KernelError>(e),
        Ok(x) => exists|told: Result<Vec<u8>, String>| #[trigger]
            call_ensures(C::receipt, (codec, &x), told) && match told {
                Ok(b) => r == Ok::<Vec<u8>, KernelError>(b),
                Err(t) => r is Err && is_manifest_error(r->Err_0, t@),
            },
    }
}

fn reply<C: InternalCodec>(codec: &C, out: Result<InternalReceipt, KernelError>) -> (r: Result<
    Vec<u8>,
    KernelError,
>)
    ensures
        replied(r, codec, out),
{
    match out {
        Err(e) => Err(e),
        Ok(x) => {
            let written = codec.receipt(&x);
            let ghost told = written;
            assert(call_ensures(C::receipt, (codec, &x), told));
            match written {
                Ok(b) => Ok(b),
                Err(t) => Err(KernelError::Manifest(t)),
            }
        },
    }
}

/// What the handlers work on: the state of the kernel, the nodes of workspaces, the definitions
/// with the codec of patches, the kernel's governance, and the codec of params and receipts.
pub struct KernelHandlers<K, W, A, P, G, C> {
    pub reader: K,
    pub store: W,
    pub defs: A,
    pub patches: P,
    pub host: G,
    pub codec: C,
}

impl<
    K: StateReader + CellSource,
    W: Store<WorkspaceNode>,
    A: Store<AirNode>,
    P: PatchCodec,
    G: GovernanceHost,
    C: InternalCodec,
> KernelHandlers<K, W, A, P, G, C> {
    /// Only the workspaces may have changed.
    pub open spec fn same_but_store(self, other: Self) -> bool {
        &&& self.reader == other.reader
        &&& self.defs == other.defs
        &&& self.patches == other.patches
        &&& self.host == other.host
        &&& self.codec == other.codec
    }

    /// Only the kernel's governance may have changed.
    pub open spec fn same_but_host(self, other: Self) -> bool {
        &&& self.reader == other.reader
        &&& self.store == other.store
        &&& self.defs == other.defs
        &&& self.patches == other.patches
        &&& self.codec == other.codec
    }

    /// Whether an outcome is that of an effect, by the handler that it goes to.
    pub open spec fn came_to(
        self,
        after: Self,
        effect: InternalEffect,
        bytes: Vec<u8>,
        out: Result<InternalReceipt, KernelError>,
    ) -> bool {
        match effect {
            InternalEffect::IntrospectJournalHead => after == self && out is Ok && (
            out->Ok_0 matches InternalReceipt::JournalHead(x) && head_told(x, &self.reader)),
            InternalEffect::WorkspaceResolve => after == self && resolve_handled(
                out,
                &self.reader,
                &self.codec,
                bytes,
            ),
            InternalEffect::IntrospectManifest => after == self && manifest_handled(
                out,
                &self.reader,
                &self.codec,
                bytes,
            ),
            InternalEffect::IntrospectReducerState => after == self && reducer_state_handled(
                out,
                &self.reader,
                &self.codec,
                bytes,
            ),
            InternalEffect::IntrospectListCells => after == self && list_cells_handled(
                out,
                &self.reader,
                &self.codec,
                bytes,
            ),
            InternalEffect::WorkspaceEmptyRoot => after.same_but_store(self) && empty_root_handled(
                out,
                self.store,
                after.store,
                &self.codec,
                bytes,
            ),
            InternalEffect::WorkspaceList => after == self && list_handled(
                out,
                &self.store,
                &self.codec,
                bytes,
            ),
            InternalEffect::WorkspaceReadRef => after == self && read_ref_handled(
                out,
                &self.store,
                &self.codec,
                bytes,
            ),
            InternalEffect::WorkspaceReadBytes => after == self && read_bytes_handled(
                out,
                &self.store,
                &self.codec,
                bytes,
            ),
            InternalEffect::WorkspaceWriteBytes => after.same_but_store(self) && write_bytes_handled(
                out,
                self.store,
                after.store,
                &self.codec,
                bytes,
            ),
            InternalEffect::WorkspaceRemove => after.same_but_store(self) && remove_handled(
                out,
                self.store,
                after.store,
                &self.codec,
                bytes,
            ),
            InternalEffect::WorkspaceDiff => after == self && diff_handled(
                out,
                &self.store,
                &self.codec,
                bytes,
            ),
            InternalEffect::WorkspaceAnnotationsGet => after == self && annotations_get_handled(
                out,
                &self.store,
                &self.codec,
                bytes,
            ),
            InternalEffect::WorkspaceAnnotationsSet => after.same_but_store(self) && annotations_set_handled(
                out,
                self.store,
                after.store,
                &self.codec,
                bytes,
            ),
            InternalEffect::GovernancePropose => after.same_but_host(self) && propose_handled(
                out,
                &self.defs,
                &self.patches,
                self.host,
                after.host,
                &self.codec,
                bytes,
            ),
            InternalEffect::GovernanceShadow => after.same_but_host(self) && shadow_handled(
                out,
                self.host,
                after.host,
                &self.codec,
                bytes,
            ),
            InternalEffect::GovernanceApprove => after.same_but_host(self) && approve_handled(
                out,
                self.host,
                after.host,
                &self.codec,
                bytes,
            ),
            InternalEffect::GovernanceApply => after.same_but_host(self) && apply_handled(
                out,
                self.host,
                after.host,
                &self.codec,
                bytes,
            ),
        }
    }

    /// Whether a result is what an effect comes to: its handler's outcome, in bytes.
    pub open spec fn handled(
        self,
        after: Self,
        effect: InternalEffect,
        bytes: Vec<u8>,
        r: Result<Vec<u8>, KernelError>,
    ) -> bool {
        exists|out: Result<InternalReceipt, KernelError>| #[trigger]
            self.came_to(after, effect, bytes, out) && replied(r, &self.codec, out)
    }

    fn outcome(&mut self, effect: InternalEffect, bytes: &Vec<u8>) -> (out: Result<
        InternalReceipt,
        KernelError,
    >)
        ensures
            old(self).came_to(*final(self), effect, *bytes, out),
            match effect {
                InternalEffect::GovernancePropose => out is Ok || final(self).host != old(self).host ==> exists|p: GovProposeParams|
                    (#[trigger] call_ensures(C::propose_params, (&old(self).codec, bytes), Ok::<GovProposeParams, String>(p)))
                        && (exists|h: &mut G, patch: ManifestPatch, told: Result<u64, KernelError>|
                        *h == old(self).host && *final(h) == final(self).host && (#[trigger] call_ensures(
                            G::submit_proposal,
                            (h, patch, p.description),
                            told,
                        ))),
                InternalEffect::GovernanceShadow => out is Ok || final(self).host != old(self).host ==> exists|p: GovShadowParams|
                    (#[trigger] call_ensures(C::shadow_params, (&old(self).codec, bytes), Ok::<GovShadowParams, String>(p)))
                        && (exists|h: &mut G, told: Result<ShadowSummary, KernelError>|
                        *h == old(self).host && *final(h) == final(self).host && (#[trigger] call_ensures(
                            G::run_shadow,
                            (h, p.proposal_id),
                            told,
                        ))),
                InternalEffect::GovernanceApprove => out is Ok || final(self).host != old(self).host ==> exists|p: GovApproveParams|
                    (#[trigger] call_ensures(C::approve_params, (&old(self).codec, bytes), Ok::<GovApproveParams, String>(p)))
                        && match p.decision {
                    GovApprovalDecision::Approve => (exists|h: &mut G, told: Result<(), KernelError>|
                        *h == old(self).host && *final(h) == final(self).host && (#[trigger] call_ensures(
                            G::approve_proposal,
                            (h, p.proposal_id, p.approver),
                            told,
                        ))),
                    GovApprovalDecision::Reject => (exists|h: &mut G, told: Result<(), KernelError>|
                        *h == old(self).host && *final(h) == final(self).host && (#[trigger] call_ensures(
                            G::reject_proposal,
                            (h, p.proposal_id, p.approver),
                            told,
                        ))),
                },
                InternalEffect::GovernanceApply => out is Ok || final(self).host != old(self).host ==> exists|p: GovApplyParams|
                    (#[trigger] call_ensures(C::apply_params, (&old(self).codec, bytes), Ok::<GovApplyParams, String>(p)))
                        && (exists|h: &mut G, told: Result<(), KernelError>|
                        *h == old(self).host && *final(h) == final(self).host && (#[trigger] call_ensures(
                            G::apply_proposal,
                            (h, p.proposal_id),
                            told,
                        ))),
                _ => final(self).host == old(self).host,
            },
    {
        match effect {
            InternalEffect::IntrospectJournalHead => Ok(
                InternalReceipt::JournalHead(handle_journal_head(&self.reader)),
            ),
            InternalEffect::WorkspaceResolve => resolve_workspace(
                &self.reader,
                &self.codec,
                bytes,
            ),
            InternalEffect::IntrospectManifest => manifest_of(&self.reader, &self.codec, bytes),
            InternalEffect::IntrospectReducerState => reducer_state_of(&self.reader, &self.codec, bytes),
            InternalEffect::IntrospectListCells => list_cells_of(&self.reader, &self.codec, bytes),
            InternalEffect::WorkspaceEmptyRoot => empty_root_of(&mut self.store, &self.codec, bytes),
            InternalEffect::WorkspaceList => list_of(&self.store, &self.codec, bytes),
            InternalEffect::WorkspaceReadRef => read_ref_of(&self.store, &self.codec, bytes),
            InternalEffect::WorkspaceReadBytes => read_bytes_of(&self.store, &self.codec, bytes),
            InternalEffect::WorkspaceWriteBytes => write_bytes_of(&mut self.store, &self.codec, bytes),
            InternalEffect::WorkspaceRemove => remove_of(&mut self.store, &self.codec, bytes),
            InternalEffect::WorkspaceDiff => diff_of(&self.store, &self.codec, bytes),
            InternalEffect::WorkspaceAnnotationsGet => annotations_get_of(&self.store, &self.codec, bytes),
            InternalEffect::WorkspaceAnnotationsSet => annotations_set_of(&mut self.store, &self.codec, bytes),
            InternalEffect::GovernancePropose => propose_of(
                &self.defs,
                &self.patches,
                &mut self.host,
                &self.codec,
                bytes,
            ),
            InternalEffect::GovernanceShadow => shadow_of(&mut self.host, &self.codec, bytes),
            InternalEffect::GovernanceApprove => approve_of(&mut self.host, &self.codec, bytes),
            InternalEffect::GovernanceApply => apply_of(&mut self.host, &self.codec, bytes),
        }
    }
}

impl<
    K: StateReader + CellSource,
    W: Store<WorkspaceNode>,
    A: Store<AirNode>,
    P: PatchCodec,
    G: GovernanceHost,
    C: InternalCodec,
> InternalHandlers for KernelHandlers<K, W, A, P, G, C> {
    fn handle(&mut self, effect: InternalEffect, intent: &EffectIntent) -> (r: Result<
        Vec<u8>,
        KernelError,
    >)
        ensures
            old(self).handled(*final(self), effect, intent.params_cbor, r),
            match effect {
                InternalEffect::GovernancePropose => r is Ok || final(self).host != old(self).host ==> exists|p: GovProposeParams|
                    (#[trigger] call_ensures(C::propose_params, (&old(self).codec, &intent.params_cbor), Ok::<GovProposeParams, String>(p)))
                        && (exists|h: &mut G, patch: ManifestPatch, told: Result<u64, KernelError>|
                        *h == old(self).host && *final(h) == final(self).host && (#[trigger] call_ensures(
                            G::submit_proposal,
                            (h, patch, p.description),
                            told,
                        ))),
                InternalEffect::GovernanceShadow => r is Ok || final(self).host != old(self).host ==> exists|p: GovShadowParams|
                    (#[trigger] call_ensures(C::shadow_params, (&old(self).codec, &intent.params_cbor), Ok::<GovShadowParams, String>(p)))
                        && (exists|h: &mut G, told: Result<ShadowSummary, KernelError>|
                        *h == old(self).host && *final(h) == final(self).host && (#[trigger] call_ensures(
                            G::run_shadow,
                            (h, p.proposal_id),
                            told,
                        ))),
                InternalEffect::GovernanceApprove => r is Ok || final(self).host != old(self).host ==> exists|p: GovApproveParams|
                    (#[trigger] call_ensures(C::approve_params, (&old(self).codec, &intent.params_cbor), Ok::<GovApproveParams, String>(p)))
                        && match p.decision {
                    GovApprovalDecision::Approve => (exists|h: &mut G, told: Result<(), KernelError>|
                        *h == old(self).host && *final(h) == final(self).host && (#[trigger] call_ensures(
                            G::approve_proposal,
                            (h, p.proposal_id, p.approver),
                            told,
                        ))),
                    GovApprovalDecision::Reject => (exists|h: &mut G, told: Result<(), KernelError>|
                        *h == old(self).host && *final(h) == final(self).host && (#[trigger] call_ensures(
                            G::reject_proposal,
                            (h, p.proposal_id, p.approver),
                            told,
                        ))),
                },
                InternalEffect::GovernanceApply => r is Ok || final(self).host != old(self).host ==> exists|p: GovApplyParams|
                    (#[trigger] call_ensures(C::apply_params, (&old(self).codec, &intent.params_cbor), Ok::<GovApplyParams, String>(p)))
                        && (exists|h: &mut G, told: Result<(), KernelError>|
                        *h == old(self).host && *final(h) == final(self).host && (#[trigger] call_ensures(
                            G::apply_proposal,
                            (h, p.proposal_id),
                            told,
                        ))),
                _ => final(self).host == old(self).host,
            },
    {
        let ghost start = *self;
        let out = self.outcome(effect, &intent.params_cbor);
        let ghost told = out;
        assert(start.came_to(*self, effect, intent.params_cbor, told));
        reply(&self.codec, out)
    }
}

} // verus!
