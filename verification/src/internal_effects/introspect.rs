//! Looking into the kernel.
use vstd::prelude::*;

use crate::bytes::copy_slice;
use crate::cell_index::CellMeta;
use crate::error::{is_query_error, KernelError};
use crate::hash::{hash_text, ContentHash, HashRef};
use crate::internal_effects::{consistency_of, lowercased, parse_consistency};
use crate::query::{ReadMeta, StateRead, StateReader};
use crate::text::trimmed;

verus! {

/// What a reader is told of the state that it saw, with digests as bytes.
#[derive(Debug)]
pub struct MetaSer {
    pub journal_height: u64,
    pub snapshot_hash: Option<Vec<u8>>,
    pub manifest_hash: Vec<u8>,
    pub active_baseline_height: Option<u64>,
    pub active_baseline_receipt_horizon_height: Option<u64>,
}

/// Whether the outer form says what the inner one does.
pub open spec fn is_meta(m: MetaSer, meta: ReadMeta) -> bool {
    &&& m.journal_height == meta.journal_height
    &&& match (m.snapshot_hash, meta.snapshot_hash) {
        (Some(b), Some(h)) => b@ == h@,
        (None, None) => true,
        _ => false,
    }
    &&& m.manifest_hash@ == meta.manifest_hash@
    &&& m.active_baseline_height == meta.active_baseline_height
    &&& m.active_baseline_receipt_horizon_height == meta.active_baseline_receipt_horizon_height
}

pub fn to_meta(meta: &ReadMeta) -> (r: MetaSer)
    ensures
        is_meta(r, *meta),
{
    let snapshot_hash = match &meta.snapshot_hash {
        Some(h) => Some(copy_slice(h.as_bytes())),
        None => None,
    };
    MetaSer {
        journal_height: meta.journal_height,
        snapshot_hash,
        manifest_hash: copy_slice(meta.manifest_hash.as_bytes()),
        active_baseline_height: meta.active_baseline_height,
        active_baseline_receipt_horizon_height: meta.active_baseline_receipt_horizon_height,
    }
}

#[derive(Debug)]
pub struct ManifestParams {
    pub consistency: String,
}

#[derive(Debug)]
pub struct ManifestReceipt {
    pub manifest: Vec<u8>,
    pub meta: MetaSer,
}

#[derive(Debug)]
pub struct ReducerStateParams {
    pub reducer: String,
    pub key: Option<Vec<u8>>,
    pub consistency: String,
}

#[derive(Debug)]
pub struct ReducerStateReceipt {
    pub state: Option<Vec<u8>>,
    pub meta: MetaSer,
}

#[derive(Debug)]
pub struct JournalHeadReceipt {
    pub meta: MetaSer,
}

#[derive(Debug)]
pub struct ListCellsParams {
    pub reducer: String,
}

/// A cell as it is listed.
#[derive(Debug)]
pub struct CellEntry {
    pub key: Vec<u8>,
    pub state_hash: HashRef,
    pub size: u64,
    pub last_active_ns: u64,
}

#[derive(Debug)]
pub struct ListCellsReceipt {
    pub cells: Vec<CellEntry>,
    pub meta: MetaSer,
}

/// Whether an entry lists a cell.
pub open spec fn is_cell_entry(e: CellEntry, m: CellMeta) -> bool {
    &&& e.key == m.key_bytes
    &&& e.state_hash@ == hash_text(m.state_hash@)
    &&& e.size == m.size
    &&& e.last_active_ns == m.last_active_ns
}

fn cell_entry(m: CellMeta) -> (r: CellEntry)
    ensures
        is_cell_entry(r, m),
{
    CellEntry {
        key: m.key_bytes,
        state_hash: HashRef::of_hash(&ContentHash::from_array(m.state_hash)),
        size: m.size,
        last_active_ns: m.last_active_ns,
    }
}

/// Whether a receipt lists cells, in order.
pub open spec fn is_listing(r: ListCellsReceipt, cells: Seq<CellMeta>, meta: ReadMeta) -> bool {
    &&& r.cells@.len() == cells.len()
    &&& forall|i: int| 0 <= i < cells.len() ==> is_cell_entry(#[trigger] r.cells@[i], cells[i])
    &&& is_meta(r.meta, meta)
}

/// The listing of cells.
pub fn list_cells_receipt(cells: Vec<CellMeta>, meta: &ReadMeta) -> (r: ListCellsReceipt)
    ensures
        is_listing(r, cells@, *meta),
{
    let mut left = cells;
    let ghost all = left@;
    let mut back: Vec<CellEntry> = Vec::new();
    while left.len() > 0
        invariant
            left@ == all.take(left@.len() as int),
            left@.len() + back@.len() == all.len(),
            forall|k: int|
                0 <= k < back@.len() ==> is_cell_entry(
                    #[trigger] back@[k],
                    all[all.len() - 1 - k],
                ),
        decreases left@.len(),
    {
        let ghost n = left@.len();
        match left.pop() {
            Some(m) => {
                assert(m == all[n - 1]);
                assert(left@ =~= all.take(n - 1));
                back.push(cell_entry(m));
            },
            None => {},
        }
    }
    let ghost turned = back@;
    let mut out: Vec<CellEntry> = Vec::new();
    while back.len() > 0
        invariant
            back@ == turned.take(back@.len() as int),
            back@.len() + out@.len() == all.len(),
            turned.len() == all.len(),
            forall|k: int|
                0 <= k < turned.len() ==> is_cell_entry(
                    #[trigger] turned[k],
                    all[all.len() - 1 - k],
                ),
            forall|k: int| 0 <= k < out@.len() ==> is_cell_entry(#[trigger] out@[k], all[k]),
        decreases back@.len(),
    {
        let ghost n = back@.len();
        match back.pop() {
            Some(e) => {
                assert(e == turned[n - 1]);
                assert(back@ =~= turned.take(n - 1));
                out.push(e);
            },
            None => {},
        }
    }
    ListCellsReceipt { cells: out, meta: to_meta(meta) }
}

/// The receipt for a manifest that was read.
pub fn manifest_receipt(read: StateRead<Vec<u8>>) -> (r: ManifestReceipt)
    ensures
        r.manifest == read.value,
        is_meta(r.meta, read.meta),
{
    ManifestReceipt { meta: to_meta(&read.meta), manifest: read.value }
}

/// The receipt for a state that was read.
pub fn reducer_state_receipt(read: StateRead<Option<Vec<u8>>>) -> (r: ReducerStateReceipt)
    ensures
        r.state == read.value,
        is_meta(r.meta, read.meta),
{
    ReducerStateReceipt { meta: to_meta(&read.meta), state: read.value }
}

/// What the kernel knows of the cells of a reducer.
pub trait CellSource {
    fn list_cells(&self, reducer: &str) -> Result<Vec<CellMeta>, KernelError>;

    fn read_meta(&self) -> ReadMeta;
}

/// Whether a receipt is what a read of a manifest comes to.
pub open spec fn manifest_answered(
    r: Result<ManifestReceipt, KernelError>,
    read: Result<StateRead<Vec<u8>>, KernelError>,
) -> bool {
    match (r, read) {
        (Ok(x), Ok(v)) => x.manifest == v.value && is_meta(x.meta, v.meta),
        (Err(e), Err(f)) => e == f,
        _ => false,
    }
}

/// What reading the manifest comes to.
pub open spec fn manifest_told<R: StateReader>(
    r: Result<ManifestReceipt, KernelError>,
    reader: &R,
    params: ManifestParams,
) -> bool {
    match consistency_of(params.consistency@, lowercased(trimmed(params.consistency@))) {
        Err(t) => r matches Err(e) && is_query_error(e, t),
        Ok(c) => exists|read: Result<StateRead<Vec<u8>>, KernelError>| #[trigger]
            call_ensures(R::get_manifest, (reader, c), read) && manifest_answered(r, read),
    }
}

/// Reads the manifest. A consistency that cannot be understood is refused before anything is read.
pub fn handle_manifest<R: StateReader>(reader: &R, params: &ManifestParams) -> (r: Result<
    ManifestReceipt,
    KernelError,
>)
    ensures
        manifest_told(r, reader, *params),
{
    let consistency = match parse_consistency(params.consistency.as_str()) {
        Ok(c) => c,
        Err(e) => {
            return Err(e);
        },
    };
    let read = reader.get_manifest(consistency);
    let ghost told = read;
    let r = match read {
        Ok(v) => Ok(manifest_receipt(v)),
        Err(e) => Err(e),
    };
    assert(manifest_answered(r, told));
    r
}

/// Whether a receipt is what a read of a state comes to.
pub open spec fn state_answered(
    r: Result<ReducerStateReceipt, KernelError>,
    read: Result<StateRead<Option<Vec<u8>>>, KernelError>,
) -> bool {
    match (r, read) {
        (Ok(x), Ok(v)) => x.state == v.value && is_meta(x.meta, v.meta),
        (Err(e), Err(f)) => e == f,
        _ => false,
    }
}

/// What reading the state of a reducer comes to.
pub open spec fn state_told<R: StateReader>(
    r: Result<ReducerStateReceipt, KernelError>,
    reader: &R,
    params: ReducerStateParams,
) -> bool {
    match consistency_of(params.consistency@, lowercased(trimmed(params.consistency@))) {
        Err(t) => r matches Err(e) && is_query_error(e, t),
        Ok(c) => exists|module: &str, read: Result<StateRead<Option<Vec<u8>>>, KernelError>|
            module@ == params.reducer@ && #[trigger] call_ensures(
                R::get_reducer_state,
                (reader, module, &params.key, c),
                read,
            ) && state_answered(r, read),
    }
}

/// Reads the state of a reducer or of one of its cells.
pub fn handle_reducer_state<R: StateReader>(reader: &R, params: &ReducerStateParams) -> (r: Result<
    ReducerStateReceipt,
    KernelError,
>)
    ensures
        state_told(r, reader, *params),
{
    let consistency = match parse_consistency(params.consistency.as_str()) {
        Ok(c) => c,
        Err(e) => {
            return Err(e);
        },
    };
    let read = reader.get_reducer_state(params.reducer.as_str(), &params.key, consistency);
    let ghost told = read;
    let r = match read {
        Ok(v) => Ok(reducer_state_receipt(v)),
        Err(e) => Err(e),
    };
    assert(state_answered(r, told));
    r
}

/// What reading the head of the journal comes to.
pub open spec fn head_told<R: StateReader>(r: JournalHeadReceipt, reader: &R) -> bool {
    exists|meta: ReadMeta| #[trigger]
        call_ensures(R::get_journal_head, (reader,), meta) && is_meta(r.meta, meta)
}

/// Reads what the state stands on.
pub fn handle_journal_head<R: StateReader>(reader: &R) -> (r: JournalHeadReceipt)
    ensures
        head_told(r, reader),
{
    let meta = reader.get_journal_head();
    let r = JournalHeadReceipt { meta: to_meta(&meta) };
    assert(call_ensures(R::get_journal_head, (reader,), meta));
    r
}

/// Whether a result is what the kernel's answers come to: it is asked for the cells of the reducer,
/// and only where it lists them for what its state stands on.
pub open spec fn cells_answered<K: CellSource>(
    kernel: &K,
    reducer: Seq<char>,
    r: Result<ListCellsReceipt, KernelError>,
) -> bool {
    exists|name: &str, told: Result<Vec<CellMeta>, KernelError>|
        name@ == reducer && #[trigger] call_ensures(K::list_cells, (kernel, name), told) && match (
            r,
            told,
        ) {
            (Ok(x), Ok(cells)) => exists|meta: ReadMeta|
                call_ensures(K::read_meta, (kernel,), meta) && #[trigger] is_listing(
                    x,
                    cells@,
                    meta,
                ),
            (Err(e), Err(f)) => e == f,
            _ => false,
        }
}

/// Lists the cells of a reducer.
pub fn handle_list_cells<K: CellSource>(kernel: &K, params: &ListCellsParams) -> (r: Result<
    ListCellsReceipt,
    KernelError,
>)
    ensures
        cells_answered(kernel, params.reducer@, r),
{
    let name = params.reducer.as_str();
    let told = kernel.list_cells(name);
    let ghost answer = told;
    let r = match told {
        Err(e) => Err(e),
        Ok(cells) => {
            let ghost all = cells@;
            let meta = kernel.read_meta();
            let x = list_cells_receipt(cells, &meta);
            assert(call_ensures(K::read_meta, (kernel,), meta));
            assert(is_listing(x, all, meta));
            Ok(x)
        },
    };
    assert(call_ensures(K::list_cells, (kernel, name), answer));
    r
}

} // verus!
