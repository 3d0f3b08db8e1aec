//! The effects on workspaces.
use vstd::prelude::*;

use crate::bytes::copy_range;
use crate::error::{is_query_error, KernelError};
use crate::hash::{hash_fault, hash_text, is_hash_text, sha256, ContentHash, HashRef};
use crate::store::{blob_fails, blob_write_fails, or_insert, Store};
use crate::text::{join2, join3, str_eq};
use crate::workspace::list::{are_changes, by_path, changes_view, collect_subtree_entries,
    diff_entries, found_view, is_page, listed, sort_by_path, subtree, take_page, PathEntry,
    WorkspaceDiffChange, WorkspaceListReceipt};
use crate::workspace::notes::{annotated, annotations_from_hash, notes_at, notes_view,
    set_annotations_at_path, NotesPatch, WorkspaceAnnotationsPatch};
use crate::workspace::ops::{digest_of, dir_at, empty_tree, entry_named, entry_view, failed,
    failed_writing, file_mode, find_entry, hash_from_ref, load_tree, put_empty_tree, ref_hash,
    remove_entry_at_path, removed, resolve_dir_hash, resolve_entry, resolve_file_mode, resolved,
    stopped, tree_at, write_file_at_path, written, FileView, Look, St};
use crate::workspace::{hash_view, is_workspace_name, join_path, join_segments, joined,
    path_segments, path_under, query_error, texts, validate_path, validate_workspace_name,
    EntryView, NodeView, NotesView, WorkspaceAnnotations, WorkspaceEntry, WorkspaceNode};

verus! {

/// A version of a workspace.
#[derive(Debug)]
pub struct WorkspaceCommitMeta {
    pub root_hash: HashRef,
    pub owner: String,
    pub created_at: u64,
}

/// The versions of a workspace, by number.
#[derive(Debug)]
pub struct WorkspaceHistory {
    pub latest: u64,
    pub versions: Vec<(u64, WorkspaceCommitMeta)>,
}

/// The root of a version.
pub open spec fn version_root(versions: Seq<(u64, WorkspaceCommitMeta)>, v: u64) -> Option<
    Seq<char>,
>
    decreases versions.len(),
{
    if versions.len() == 0 {
        None
    } else if versions[0].0 == v {
        Some(versions[0].1.root_hash@)
    } else {
        version_root(versions.drop_first(), v)
    }
}

fn find_version<'a>(versions: &'a Vec<(u64, WorkspaceCommitMeta)>, v: u64) -> (r: Option<
    &'a WorkspaceCommitMeta,
>)
    ensures
        match (r, version_root(versions@, v)) {
            (Some(m), Some(h)) => m.root_hash@ == h,
            (None, None) => true,
            _ => false,
        },
{
    let mut i: usize = 0;
    assert(versions@.skip(0) =~= versions@);
    while i < versions.len()
        invariant
            i <= versions@.len(),
            version_root(versions@, v) == version_root(versions@.skip(i as int), v),
        decreases versions@.len() - i,
    {
        assert(versions@.skip(i as int)[0] == versions@[i as int]);
        if versions[i].0 == v {
            return Some(&versions[i].1);
        }
        assert(versions@.skip(i as int).drop_first() =~= versions@.skip(i + 1));
        i += 1;
    }
    None
}

/// A version of a workspace, or that there is none.
#[derive(Debug)]
pub struct WorkspaceResolveReceipt {
    pub exists: bool,
    pub resolved_version: Option<u64>,
    pub head: Option<u64>,
    pub root_hash: Option<HashRef>,
}

/// Whether a receipt tells of the version that was asked for: the given one, else the latest.
pub open spec fn tells_version(
    r: WorkspaceResolveReceipt,
    history: Option<&WorkspaceHistory>,
    version: Option<u64>,
) -> bool {
    let found = match history {
        None => None,
        Some(h) => {
            let v = match version {
                Some(v) => v,
                None => h.latest,
            };
            match version_root(h.versions@, v) {
                Some(root) => Some((v, h.latest, root)),
                None => None,
            }
        },
    };
    match found {
        None => !r.exists && r.resolved_version is None && r.head is None && r.root_hash is None,
        Some((v, head, root)) => r.exists && r.resolved_version == Some(v) && r.head == Some(head)
            && hash_view(r.root_hash) == Some(root),
    }
}

/// What finding a version of a workspace comes to.
pub open spec fn version_told(
    r: Result<WorkspaceResolveReceipt, KernelError>,
    workspace: Seq<char>,
    version: Option<u64>,
    history: Option<&WorkspaceHistory>,
) -> bool {
    match r {
        Ok(x) => is_workspace_name(workspace) && tells_version(x, history, version),
        Err(e) => !is_workspace_name(workspace) && is_query_error(e, "invalid workspace name"@),
    }
}

/// Finds a version of a workspace in its history.
pub fn handle_workspace_resolve(
    workspace: &str,
    version: Option<u64>,
    history: Option<&WorkspaceHistory>,
) -> (r: Result<WorkspaceResolveReceipt, KernelError>)
    ensures
        version_told(r, workspace@, version, history),
{
    match validate_workspace_name(workspace) {
        Ok(_) => {},
        Err(e) => {
            return Err(e);
        },
    }
    if let Some(h) = history {
        let target: u64 = match version {
            Some(v) => v,
            None => h.latest,
        };
        if let Some(meta) = find_version(&h.versions, target) {
            return Ok(
                WorkspaceResolveReceipt {
                    exists: true,
                    resolved_version: Some(target),
                    head: Some(h.latest),
                    root_hash: Some(meta.root_hash.clone()),
                },
            );
        }
    }
    Ok(
        WorkspaceResolveReceipt {
            exists: false,
            resolved_version: None,
            head: None,
            root_hash: None,
        },
    )
}

/// What making a new workspace comes to.
pub open spec fn root_told<S: Store<WorkspaceNode>>(
    r: Result<HashRef, KernelError>,
    before: S,
    after: S,
    workspace: Seq<char>,
) -> bool {
    &&& after.blobs() == before.blobs()
    &&& match r {
        Ok(h) => {
            let node = NodeView::Tree(empty_tree());
            &&& is_workspace_name(workspace)
            &&& h@ == hash_text(digest_of(node))
            &&& after.nodes() == or_insert(before.nodes(), digest_of(node), node)
        },
        Err(e) => if is_workspace_name(workspace) {
            stopped::<S>(e)
        } else {
            is_query_error(e, "invalid workspace name"@) && after.nodes() == before.nodes()
        },
    }
}

/// The root of a new workspace: the directory without entries.
pub fn handle_workspace_empty_root<S: Store<WorkspaceNode>>(store: &mut S, workspace: &str) -> (r:
    Result<HashRef, KernelError>)
    ensures
        root_told(r, *old(store), *final(store), workspace@),
{
    match validate_workspace_name(workspace) {
        Ok(_) => {},
        Err(e) => {
            return Err(e);
        },
    }
    match put_empty_tree(store) {
        Ok(h) => Ok(HashRef::of_hash(&h)),
        Err(e) => Err(e),
    }
}

/// The digest that a text names.
pub open spec fn root_of(text: Seq<char>) -> Look<Seq<u8>> {
    if is_hash_text(text) {
        Look::Found(ref_hash(text))
    } else {
        Look::Fault("invalid hash: "@ + hash_fault(text))
    }
}

pub fn parse_hash_str(value: &str) -> (r: Result<ContentHash, KernelError>)
    ensures
        match (r, root_of(value@)) {
            (Ok(h), Look::Found(t)) => h@ == t,
            (Err(e), Look::Fault(t)) => is_query_error(e, t),
            _ => false,
        },
{
    match ContentHash::from_hex_str(value) {
        Ok(h) => Ok(h),
        Err(e) => Err(KernelError::Query(join2("invalid hash: ", e.message().as_str()))),
    }
}

/// The names on a path that may be left out.
pub open spec fn names_on(path: Option<Seq<char>>) -> Look<Seq<Seq<char>>> {
    match path {
        None => Look::Found(Seq::empty()),
        Some(p) => match path_segments(p) {
            Ok(s) => Look::Found(s),
            Err(t) => Look::Fault(t),
        },
    }
}

pub open spec fn text_of(s: Option<String>) -> Option<Seq<char>> {
    match s {
        Some(t) => Some(t@),
        None => None,
    }
}

fn parse_path(path: &Option<String>) -> (r: Result<Vec<String>, KernelError>)
    ensures
        match (r, names_on(text_of(*path))) {
            (Ok(v), Look::Found(t)) => texts(v@) == t,
            (Err(e), Look::Fault(t)) => is_query_error(e, t),
            _ => false,
        },
{
    match path {
        None => {
            let v: Vec<String> = Vec::new();
            assert(texts(v@) =~= Seq::empty());
            Ok(v)
        },
        Some(p) => validate_path(p.as_str()),
    }
}

/// A root and the names on a path.
pub open spec fn place_of(root: Seq<char>, path: Option<Seq<char>>) -> Look<
    (Seq<u8>, Seq<Seq<char>>),
> {
    match root_of(root) {
        Look::Missing => Look::Missing,
        Look::Fault(f) => Look::Fault(f),
        Look::Found(h) => match names_on(path) {
            Look::Missing => Look::Missing,
            Look::Fault(f) => Look::Fault(f),
            Look::Found(p) => Look::Found((h, p)),
        },
    }
}

fn parse_place(root: &str, path: &Option<String>) -> (r: Result<
    (ContentHash, Vec<String>),
    KernelError,
>)
    ensures
        match (r, place_of(root@, text_of(*path))) {
            (Ok((h, v)), Look::Found(t)) => h@ == t.0 && texts(v@) == t.1,
            (Err(e), Look::Fault(t)) => is_query_error(e, t),
            _ => false,
        },
{
    let h = match parse_hash_str(root) {
        Ok(h) => h,
        Err(e) => {
            return Err(e);
        },
    };
    match parse_path(path) {
        Ok(v) => Ok((h, v)),
        Err(e) => Err(e),
    }
}

/// What is asked of a listing.
#[derive(Debug)]
pub struct WorkspaceListParams {
    pub root_hash: String,
    pub path: Option<String>,
    pub scope: Option<String>,
    pub cursor: Option<String>,
    pub limit: u64,
}

/// The levels below which listings go.
pub const MAX_DEPTH: u64 = 0xFFFF_FFFF_FFFF_FFFF;

/// The entries that a listing covers: those of the directory, or of all directories below it too.
pub open spec fn listing(
    nodes: Map<Seq<u8>, NodeView>,
    root: Seq<char>,
    path: Option<Seq<char>>,
    scope: Option<Seq<char>>,
) -> Look<Seq<PathEntry>> {
    match place_of(root, path) {
        Look::Missing => Look::Missing,
        Look::Fault(f) => Look::Fault(f),
        Look::Found((h, p)) => match dir_at(nodes, h, p) {
            Look::Missing => Look::Missing,
            Look::Fault(f) => Look::Fault(f),
            Look::Found(dir) => {
                let word = match scope {
                    Some(s) => s,
                    None => "dir"@,
                };
                if word == "dir"@ {
                    match tree_at(nodes, dir) {
                        Look::Missing => Look::Missing,
                        Look::Fault(f) => Look::Fault(f),
                        Look::Found(t) => Look::Found(listed(t, joined(p))),
                    }
                } else if word == "subtree"@ {
                    subtree(nodes, dir, joined(p), MAX_DEPTH as nat)
                } else {
                    Look::Fault("invalid scope '"@ + word + "'"@)
                }
            },
        },
    }
}

/// What a listing comes to.
pub open spec fn listing_told<S: Store<WorkspaceNode>>(
    r: Result<WorkspaceListReceipt, KernelError>,
    store: S,
    params: WorkspaceListParams,
) -> bool {
    let look = listing(
        store.nodes(),
        params.root_hash@,
        text_of(params.path),
        text_of(params.scope),
    );
    match r {
        Ok(x) => look is Found && is_page(
            x,
            by_path(look->Found_0),
            text_of(params.cursor),
            params.limit,
        ),
        Err(e) => failed(e, store, look),
    }
}

/// Lists a directory, page by page, in the order of the paths.
pub fn handle_workspace_list<S: Store<WorkspaceNode>>(store: &S, params: &WorkspaceListParams) -> (r:
    Result<WorkspaceListReceipt, KernelError>)
    ensures
        listing_told(r, *store, *params),
{
    let (root, segments) = match parse_place(params.root_hash.as_str(), &params.path) {
        Ok(x) => x,
        Err(e) => {
            return Err(e);
        },
    };
    let ghost p = texts(segments@);
    assert(p.take(segments@.len() as int) =~= p);
    let dir = match resolve_dir_hash(store, &root, &segments, segments.len()) {
        Ok(h) => h,
        Err(e) => {
            return Err(e);
        },
    };
    let base = join_segments(&segments);
    let scope: &str = match &params.scope {
        Some(s) => s.as_str(),
        None => "dir",
    };
    let mut found: Vec<(String, WorkspaceEntry)> = Vec::new();
    if str_eq(scope, "dir") {
        let tree = match load_tree(store, &dir) {
            Ok(t) => t,
            Err(e) => {
                return Err(e);
            },
        };
        let mut i: usize = 0;
        while i < tree.entries.len()
            invariant
                i <= tree.entries@.len(),
                found@.len() == i,
                forall|k: int|
                    0 <= k < i ==> (#[trigger] found@[k]).0@ == path_under(
                        base@,
                        tree.entries@[k].name@,
                    ) && found@[k].1 == tree.entries@[k],
            decreases tree.entries@.len() - i,
        {
            let path = join_path(base.as_str(), tree.entries[i].name.as_str());
            found.push((path, tree.entries[i].copied()));
            i += 1;
        }
        assert(found_view(found@) =~= listed(tree@, base@));
    } else if str_eq(scope, "subtree") {
        match collect_subtree_entries(store, &dir, base.as_str(), MAX_DEPTH, &mut found) {
            Ok(_) => {},
            Err(e) => {
                return Err(e);
            },
        }
        assert(found_view(Seq::<(String, WorkspaceEntry)>::empty()) =~= Seq::empty());
        proof {
            let look = subtree(store.nodes(), dir@, base@, MAX_DEPTH as nat);
            assert(Seq::<PathEntry>::empty() + look->Found_0 =~= look->Found_0);
        }
    } else {
        return Err(KernelError::Query(join3("invalid scope '", scope, "'")));
    }
    let sorted = sort_by_path(found);
    Ok(take_page(&sorted, &params.cursor, params.limit))
}

/// What is at a path.
#[derive(Debug)]
pub struct WorkspaceRefEntry {
    pub kind: String,
    pub hash: HashRef,
    pub size: u64,
    pub mode: u64,
}

/// The entry at a path that must be given.
pub open spec fn looked_up(nodes: Map<Seq<u8>, NodeView>, root: Seq<char>, path: Seq<char>) -> Look<
    Option<EntryView>,
> {
    match place_of(root, Some(path)) {
        Look::Missing => Look::Missing,
        Look::Fault(f) => Look::Fault(f),
        Look::Found((h, p)) => resolved(nodes, h, p),
    }
}

fn look_up<S: Store<WorkspaceNode>>(store: &S, root: &str, path: &str) -> (r: Result<
    (ContentHash, Vec<String>, Option<WorkspaceEntry>),
    KernelError,
>)
    ensures
        match r {
            Ok((h, v, e)) => place_of(root@, Some(path@)) == Look::Found((h@, texts(v@)))
                && looked_up(store.nodes(), root@, path@) == Look::Found(entry_view(e)) && v@.len()
                > 0,
            Err(e) => failed(e, *store, looked_up(store.nodes(), root@, path@)),
        },
{
    let h = match parse_hash_str(root) {
        Ok(h) => h,
        Err(e) => {
            return Err(e);
        },
    };
    let v = match validate_path(path) {
        Ok(v) => v,
        Err(e) => {
            return Err(e);
        },
    };
    match resolve_entry(store, &h, &v) {
        Ok(e) => Ok((h, v, e)),
        Err(e) => Err(e),
    }
}

/// What asking for what is at a path comes to.
pub open spec fn ref_told<S: Store<WorkspaceNode>>(
    r: Result<Option<WorkspaceRefEntry>, KernelError>,
    store: S,
    root: Seq<char>,
    path: Seq<char>,
) -> bool {
    let look = looked_up(store.nodes(), root, path);
    match r {
        Ok(x) => match (look, x) {
            (Look::Found(Some(e)), Some(y)) => y.kind@ == e.kind && y.hash@ == e.hash && y.size
                == e.size && y.mode == e.mode,
            (Look::Found(None), None) => true,
            _ => false,
        },
        Err(e) => failed(e, store, look),
    }
}

/// What is at a path, if anything.
pub fn handle_workspace_read_ref<S: Store<WorkspaceNode>>(store: &S, root_hash: &str, path: &str) -> (r:
    Result<Option<WorkspaceRefEntry>, KernelError>)
    ensures
        ref_told(r, *store, root_hash@, path@),
{
    match look_up(store, root_hash, path) {
        Err(e) => Err(e),
        Ok((_, _, None)) => Ok(None),
        Ok((_, _, Some(e))) => Ok(
            Some(WorkspaceRefEntry { kind: e.kind, hash: e.hash, size: e.size, mode: e.mode }),
        ),
    }
}

/// A part of a file, from `start` to before `end`.
#[derive(Clone, Copy, Debug)]
pub struct WorkspaceReadBytesRange {
    pub start: u64,
    pub end: u64,
}

/// A part of bytes.
pub open spec fn part_of(bytes: Seq<u8>, range: Option<WorkspaceReadBytesRange>) -> Look<Seq<u8>> {
    match range {
        None => Look::Found(bytes),
        Some(x) => if x.start > x.end {
            Look::Fault("invalid range"@)
        } else if x.end > bytes.len() {
            Look::Fault("range exceeds file size"@)
        } else {
            Look::Found(bytes.subrange(x.start as int, x.end as int))
        },
    }
}

/// The bytes of a file, or a part of them.
pub fn slice_bytes(bytes: Vec<u8>, range: Option<WorkspaceReadBytesRange>) -> (r: Result<
    Vec<u8>,
    KernelError,
>)
    ensures
        match (r, part_of(bytes@, range)) {
            (Ok(b), Look::Found(t)) => b@ == t,
            (Err(e), Look::Fault(t)) => is_query_error(e, t),
            _ => false,
        },
{
    match range {
        None => Ok(bytes),
        Some(x) => {
            if x.start > x.end {
                return Err(query_error("invalid range"));
            }
            if x.end > bytes.len() as u64 {
                return Err(query_error("range exceeds file size"));
            }
            Ok(copy_range(bytes.as_slice(), x.start as usize, x.end as usize))
        },
    }
}

/// The content of a file, or a part of it.
pub open spec fn content(
    nodes: Map<Seq<u8>, NodeView>,
    blobs: Map<Seq<u8>, Seq<u8>>,
    root: Seq<char>,
    path: Seq<char>,
    range: Option<WorkspaceReadBytesRange>,
) -> Look<Seq<u8>> {
    match looked_up(nodes, root, path) {
        Look::Missing => Look::Missing,
        Look::Fault(f) => Look::Fault(f),
        Look::Found(None) => Look::Fault("path not found: "@ + path),
        Look::Found(Some(e)) => if e.kind != "file"@ {
            Look::Fault("path is not a file: "@ + path)
        } else if !blobs.contains_key(ref_hash(e.hash)) {
            Look::Missing
        } else {
            part_of(blobs[ref_hash(e.hash)], range)
        },
    }
}

/// What reading a file comes to.
pub open spec fn content_told<S: Store<WorkspaceNode>>(
    r: Result<Vec<u8>, KernelError>,
    store: S,
    root: Seq<char>,
    path: Seq<char>,
    range: Option<WorkspaceReadBytesRange>,
) -> bool {
    let look = content(store.nodes(), store.blobs(), root, path, range);
    match r {
        Ok(b) => look == Look::Found(b@),
        Err(e) => failed(e, store, look),
    }
}

/// Reads a file.
pub fn handle_workspace_read_bytes<S: Store<WorkspaceNode>>(
    store: &S,
    root_hash: &str,
    path: &str,
    range: Option<WorkspaceReadBytesRange>,
) -> (r: Result<Vec<u8>, KernelError>)
    ensures
        content_told(r, *store, root_hash@, path@, range),
{
    let entry = match look_up(store, root_hash, path) {
        Err(e) => {
            return Err(e);
        },
        Ok((_, _, None)) => {
            return Err(KernelError::Query(join2("path not found: ", path)));
        },
        Ok((_, _, Some(e))) => e,
    };
    if !str_eq(entry.kind.as_str(), "file") {
        return Err(KernelError::Query(join2("path is not a file: ", path)));
    }
    match store.get_blob(hash_from_ref(&entry.hash)) {
        Err(e) => {
            assert(blob_fails::<WorkspaceNode, S>(*store, ref_hash(entry.hash@), e));
            Err(KernelError::Store(e))
        },
        Ok(bytes) => slice_bytes(bytes, range),
    }
}

/// What is written.
#[derive(Debug)]
pub struct WorkspaceWriteBytesParams {
    pub root_hash: String,
    pub path: String,
    pub bytes: Vec<u8>,
    pub mode: Option<u64>,
}

/// The new root and the content of a written file.
#[derive(Debug)]
pub struct WorkspaceWriteBytesReceipt {
    pub new_root_hash: HashRef,
    pub blob_hash: HashRef,
}

/// The root and the store after a file has been written.
pub open spec fn file_written(
    nodes: Map<Seq<u8>, NodeView>,
    root: Seq<char>,
    path: Seq<char>,
    bytes: Seq<u8>,
    mode: Option<u64>,
) -> Look<(Seq<u8>, St)> {
    match looked_up(nodes, root, path) {
        Look::Missing => Look::Missing,
        Look::Fault(f) => Look::Fault(f),
        Look::Found(existing) => if existing is Some && existing->0.kind == "dir"@ {
            Look::Fault("path is a directory"@)
        } else {
            match file_mode(existing, mode) {
                None => Look::Fault("invalid file mode"@),
                Some(m) => written(
                    St { nodes, clean: true },
                    place_of(root, Some(path))->Found_0.0,
                    place_of(root, Some(path))->Found_0.1,
                    FileView {
                        hash: hash_text(sha256(bytes)),
                        size: bytes.len() as u64,
                        mode: m,
                    },
                ),
            }
        },
    }
}

/// What writing a file comes to.
pub open spec fn write_told<S: Store<WorkspaceNode>>(
    r: Result<WorkspaceWriteBytesReceipt, KernelError>,
    before: S,
    after: S,
    params: WorkspaceWriteBytesParams,
) -> bool {
    let look = file_written(
        before.nodes(),
        params.root_hash@,
        params.path@,
        params.bytes@,
        params.mode,
    );
    match r {
        Ok(x) => {
            &&& look is Found
            &&& x.new_root_hash@ == hash_text(look->Found_0.0)
            &&& x.blob_hash@ == hash_text(sha256(params.bytes@))
            &&& after.nodes() == look->Found_0.1.nodes
            &&& after.blobs() == or_insert(before.blobs(), sha256(params.bytes@), params.bytes@)
        },
        Err(e) => failed_writing::<S, _>(e, look),
    }
}

/// Writes a file.
pub fn handle_workspace_write_bytes<S: Store<WorkspaceNode>>(
    store: &mut S,
    params: &WorkspaceWriteBytesParams,
) -> (r: Result<WorkspaceWriteBytesReceipt, KernelError>)
    ensures
        write_told(r, *old(store), *final(store), *params),
{
    let (root, segments, existing) = match look_up(
        store,
        params.root_hash.as_str(),
        params.path.as_str(),
    ) {
        Ok(x) => x,
        Err(e) => {
            return Err(e);
        },
    };
    let existing_ref: Option<&WorkspaceEntry> = match &existing {
        Some(e) => {
            if str_eq(e.kind.as_str(), "dir") {
                return Err(query_error("path is a directory"));
            }
            Some(e)
        },
        None => None,
    };
    let mode = match resolve_file_mode(existing_ref, params.mode) {
        Ok(m) => m,
        Err(e) => {
            return Err(e);
        },
    };
    let ghost start = *store;
    let blob = match store.put_blob(&params.bytes) {
        Ok(h) => h,
        Err(e) => {
            assert(blob_write_fails::<WorkspaceNode, S>(start, params.bytes@, e));
            return Err(KernelError::Store(e));
        },
    };
    let blob_hash = HashRef::of_hash(&blob);
    match write_file_at_path(
        store,
        &root,
        &segments,
        &blob_hash,
        params.bytes.len() as u64,
        mode,
    ) {
        Ok(h) => Ok(
            WorkspaceWriteBytesReceipt { new_root_hash: HashRef::of_hash(&h), blob_hash },
        ),
        Err(e) => Err(e),
    }
}

/// The root and the store after what is at a path has been removed.
pub open spec fn path_removed(nodes: Map<Seq<u8>, NodeView>, root: Seq<char>, path: Seq<char>) -> Look<
    (Seq<u8>, St),
> {
    match looked_up(nodes, root, path) {
        Look::Missing => Look::Missing,
        Look::Fault(f) => Look::Fault(f),
        Look::Found(None) => Look::Fault("path not found: "@ + path),
        Look::Found(Some(_)) => removed(
            St { nodes, clean: true },
            place_of(root, Some(path))->Found_0.0,
            place_of(root, Some(path))->Found_0.1,
        ),
    }
}

/// What removing what is at a path comes to.
pub open spec fn removal_told<S: Store<WorkspaceNode>>(
    r: Result<HashRef, KernelError>,
    before: S,
    after: S,
    root: Seq<char>,
    path: Seq<char>,
) -> bool {
    let look = path_removed(before.nodes(), root, path);
    &&& after.blobs() == before.blobs()
    &&& match r {
        Ok(h) => look is Found && h@ == hash_text(look->Found_0.0) && after.nodes()
            == look->Found_0.1.nodes,
        Err(e) => failed_writing::<S, _>(e, look),
    }
}

/// Removes what is at a path: returns the new root.
pub fn handle_workspace_remove<S: Store<WorkspaceNode>>(
    store: &mut S,
    root_hash: &str,
    path: &str,
) -> (r: Result<HashRef, KernelError>)
    ensures
        removal_told(r, *old(store), *final(store), root_hash@, path@),
{
    let (root, segments) = match look_up(store, root_hash, path) {
        Err(e) => {
            return Err(e);
        },
        Ok((_, _, None)) => {
            return Err(KernelError::Query(join2("path not found: ", path)));
        },
        Ok((h, v, Some(_))) => (h, v),
    };
    match remove_entry_at_path(store, &root, &segments) {
        Ok(h) => Ok(HashRef::of_hash(&h)),
        Err(e) => Err(e),
    }
}

/// What of a tree takes part in a comparison below a path where `here` is.
pub open spec fn compared(
    nodes: Map<Seq<u8>, NodeView>,
    here: Option<EntryView>,
    as_file: bool,
    prefix: Seq<char>,
) -> Look<Seq<PathEntry>> {
    match here {
        None => Look::Found(Seq::empty()),
        Some(e) => if as_file {
            Look::Found(seq![(prefix, e)])
        } else {
            subtree(nodes, ref_hash(e.hash), prefix, MAX_DEPTH as nat)
        },
    }
}

/// The entries of two trees that are compared: all of them, or those at and below a path.
pub open spec fn both_sides(
    nodes: Map<Seq<u8>, NodeView>,
    root_a: Seq<char>,
    root_b: Seq<char>,
    prefix: Option<Seq<char>>,
) -> Look<(Seq<PathEntry>, Seq<PathEntry>)> {
    match (root_of(root_a), root_of(root_b), names_on(prefix)) {
        (Look::Fault(f), _, _) => Look::Fault(f),
        (_, Look::Fault(f), _) => Look::Fault(f),
        (_, _, Look::Fault(f)) => Look::Fault(f),
        (Look::Found(a), Look::Found(b), Look::Found(p)) => if p.len() == 0 {
            pair(
                subtree(nodes, a, Seq::empty(), MAX_DEPTH as nat),
                subtree(nodes, b, Seq::empty(), MAX_DEPTH as nat),
            )
        } else {
            match (resolved(nodes, a, p), resolved(nodes, b, p)) {
                (Look::Fault(f), _) => Look::Fault(f),
                (Look::Missing, _) => Look::Missing,
                (_, Look::Fault(f)) => Look::Fault(f),
                (_, Look::Missing) => Look::Missing,
                (Look::Found(x), Look::Found(y)) => if x is None && y is None {
                    Look::Fault("path not found: "@ + joined(p))
                } else {
                    let as_file = (x is Some && x->0.kind == "file"@) || (y is Some && y->0.kind
                        == "file"@);
                    pair(
                        compared(nodes, x, as_file, joined(p)),
                        compared(nodes, y, as_file, joined(p)),
                    )
                },
            }
        },
        _ => Look::Missing,
    }
}

/// Two things that are both to be found.
pub open spec fn pair<A, B>(a: Look<A>, b: Look<B>) -> Look<(A, B)> {
    match (a, b) {
        (Look::Found(x), Look::Found(y)) => Look::Found((x, y)),
        (Look::Fault(f), _) => Look::Fault(f),
        (Look::Missing, _) => Look::Missing,
        (_, Look::Fault(f)) => Look::Fault(f),
        (_, Look::Missing) => Look::Missing,
    }
}

fn collect_all<S: Store<WorkspaceNode>>(store: &S, root: &ContentHash, base: &str) -> (r: Result<
    Vec<(String, WorkspaceEntry)>,
    KernelError,
>)
    ensures
        ({
            let look = subtree(store.nodes(), root@, base@, MAX_DEPTH as nat);
            match r {
                Ok(v) => look == Look::Found(found_view(v@)),
                Err(e) => failed(e, *store, look),
            }
        }),
{
    let mut out: Vec<(String, WorkspaceEntry)> = Vec::new();
    assert(found_view(out@) =~= Seq::empty());
    match collect_subtree_entries(store, root, base, MAX_DEPTH, &mut out) {
        Ok(_) => {
            proof {
                let look = subtree(store.nodes(), root@, base@, MAX_DEPTH as nat);
                assert(Seq::<PathEntry>::empty() + look->Found_0 =~= look->Found_0);
            }
            Ok(out)
        },
        Err(e) => Err(e),
    }
}

fn collect_side<S: Store<WorkspaceNode>>(
    store: &S,
    here: &Option<WorkspaceEntry>,
    as_file: bool,
    prefix: &str,
) -> (r: Result<Vec<(String, WorkspaceEntry)>, KernelError>)
    ensures
        ({
            let look = compared(store.nodes(), entry_view(*here), as_file, prefix@);
            match r {
                Ok(v) => look == Look::Found(found_view(v@)),
                Err(e) => failed(e, *store, look),
            }
        }),
{
    match here {
        None => {
            let out: Vec<(String, WorkspaceEntry)> = Vec::new();
            assert(found_view(out@) =~= Seq::empty());
            Ok(out)
        },
        Some(e) => if as_file {
            let mut out: Vec<(String, WorkspaceEntry)> = Vec::new();
            out.push((prefix.to_owned(), e.copied()));
            assert(found_view(out@) =~= seq![(prefix@, e@)]);
            Ok(out)
        } else {
            collect_all(store, &hash_from_ref(&e.hash), prefix)
        },
    }
}

fn is_file(e: &Option<WorkspaceEntry>) -> (r: bool)
    ensures
        r == (e is Some && e->0.kind@ == "file"@),
{
    match e {
        Some(x) => str_eq(x.kind.as_str(), "file"),
        None => false,
    }
}

/// What comparing two trees comes to.
pub open spec fn diff_told<S: Store<WorkspaceNode>>(
    r: Result<Vec<WorkspaceDiffChange>, KernelError>,
    store: S,
    root_a: Seq<char>,
    root_b: Seq<char>,
    prefix: Option<Seq<char>>,
) -> bool {
    let look = both_sides(store.nodes(), root_a, root_b, prefix);
    match r {
        Ok(v) => look is Found && are_changes(
            changes_view(v@),
            look->Found_0.0,
            look->Found_0.1,
        ),
        Err(e) => failed(e, store, look),
    }
}

/// Compares two trees: all of them, or what is at and below a path.
pub fn handle_workspace_diff<S: Store<WorkspaceNode>>(
    store: &S,
    root_a: &str,
    root_b: &str,
    prefix: &Option<String>,
) -> (r: Result<Vec<WorkspaceDiffChange>, KernelError>)
    ensures
        diff_told(r, *store, root_a@, root_b@, text_of(*prefix)),
{
    let a = match parse_hash_str(root_a) {
        Ok(h) => h,
        Err(e) => {
            return Err(e);
        },
    };
    let b = match parse_hash_str(root_b) {
        Ok(h) => h,
        Err(e) => {
            return Err(e);
        },
    };
    let segments = match parse_path(prefix) {
        Ok(v) => v,
        Err(e) => {
            return Err(e);
        },
    };
    if segments.len() == 0 {
        assert(""@ =~= Seq::<char>::empty()) by {
            reveal_strlit("");
        }
        let x = match collect_all(store, &a, "") {
            Ok(v) => v,
            Err(e) => {
                return Err(e);
            },
        };
        let y = match collect_all(store, &b, "") {
            Ok(v) => v,
            Err(e) => {
                return Err(e);
            },
        };
        return Ok(diff_entries(&x, &y));
    }
    let base = join_segments(&segments);
    let x = match resolve_entry(store, &a, &segments) {
        Ok(e) => e,
        Err(e) => {
            return Err(e);
        },
    };
    let y = match resolve_entry(store, &b, &segments) {
        Ok(e) => e,
        Err(e) => {
            return Err(e);
        },
    };
    if x.is_none() && y.is_none() {
        return Err(KernelError::Query(join2("path not found: ", base.as_str())));
    }
    let as_file = is_file(&x) || is_file(&y);
    let left = match collect_side(store, &x, as_file, base.as_str()) {
        Ok(v) => v,
        Err(e) => {
            return Err(e);
        },
    };
    let right = match collect_side(store, &y, as_file, base.as_str()) {
        Ok(v) => v,
        Err(e) => {
            return Err(e);
        },
    };
    Ok(diff_entries(&left, &right))
}

/// Why no notes can be had or set at a path: nothing is there.
pub open spec fn place_checked(
    nodes: Map<Seq<u8>, NodeView>,
    root: Seq<char>,
    path: Option<Seq<char>>,
) -> Look<(Seq<u8>, Seq<Seq<char>>)> {
    match place_of(root, path) {
        Look::Missing => Look::Missing,
        Look::Fault(f) => Look::Fault(f),
        Look::Found((h, p)) => if p.len() == 0 {
            Look::Found((h, p))
        } else {
            match resolved(nodes, h, p) {
                Look::Missing => Look::Missing,
                Look::Fault(f) => Look::Fault(f),
                Look::Found(None) => Look::Fault(
                    "path not found: "@ + match path {
                        Some(t) => t,
                        None => Seq::empty(),
                    },
                ),
                Look::Found(Some(_)) => Look::Found((h, p)),
            }
        },
    }
}

fn check_place<S: Store<WorkspaceNode>>(store: &S, root: &str, path: &Option<String>) -> (r: Result<
    (ContentHash, Vec<String>),
    KernelError,
>)
    ensures
        ({
            let look = place_checked(store.nodes(), root@, text_of(*path));
            match r {
                Ok((h, v)) => look == Look::Found((h@, texts(v@))),
                Err(e) => failed(e, *store, look),
            }
        }),
{
    let (h, v) = match parse_place(root, path) {
        Ok(x) => x,
        Err(e) => {
            return Err(e);
        },
    };
    if v.len() > 0 {
        match resolve_entry(store, &h, &v) {
            Err(e) => {
                return Err(e);
            },
            Ok(None) => {
                let shown: &str = match path {
                    Some(p) => p.as_str(),
                    None => "",
                };
                proof {
                    reveal_strlit("");
                    assert(path is None ==> shown@ =~= Seq::empty());
                }
                return Err(KernelError::Query(join2("path not found: ", shown)));
            },
            Ok(Some(_)) => {},
        }
    }
    Ok((h, v))
}

/// The notes at a path: those of a file are in its entry, those of a directory in the directory.
pub open spec fn notes_of(
    nodes: Map<Seq<u8>, NodeView>,
    root: Seq<char>,
    path: Option<Seq<char>>,
) -> Look<Option<NotesView>> {
    match place_checked(nodes, root, path) {
        Look::Missing => Look::Missing,
        Look::Fault(f) => Look::Fault(f),
        Look::Found((h, p)) => if p.len() == 0 {
            match tree_at(nodes, h) {
                Look::Missing => Look::Missing,
                Look::Fault(f) => Look::Fault(f),
                Look::Found(t) => notes_at(nodes, t.annotations),
            }
        } else {
            match dir_at(nodes, h, p.drop_last()) {
                Look::Missing => Look::Missing,
                Look::Fault(f) => Look::Fault(f),
                Look::Found(parent) => match tree_at(nodes, parent) {
                    Look::Missing => Look::Missing,
                    Look::Fault(f) => Look::Fault(f),
                    Look::Found(t) => match entry_named(t.entries, p.last()) {
                        None => Look::Fault("path not found"@),
                        Some(e) => if e.kind == "file"@ {
                            notes_at(nodes, e.annotations)
                        } else if e.kind == "dir"@ {
                            match tree_at(nodes, ref_hash(e.hash)) {
                                Look::Missing => Look::Missing,
                                Look::Fault(f) => Look::Fault(f),
                                Look::Found(c) => notes_at(nodes, c.annotations),
                            }
                        } else {
                            Look::Fault("invalid entry kind"@)
                        },
                    },
                },
            }
        },
    }
}

/// What reading the notes at a path comes to.
pub open spec fn notes_told<S: Store<WorkspaceNode>>(
    r: Result<Option<WorkspaceAnnotations>, KernelError>,
    store: S,
    root: Seq<char>,
    path: Option<Seq<char>>,
) -> bool {
    let look = notes_of(store.nodes(), root, path);
    match r {
        Ok(n) => look == Look::Found(notes_view(n)),
        Err(e) => failed(e, store, look),
    }
}

/// Reads the notes at a path.
pub fn handle_workspace_annotations_get<S: Store<WorkspaceNode>>(
    store: &S,
    root_hash: &str,
    path: &Option<String>,
) -> (r: Result<Option<WorkspaceAnnotations>, KernelError>)
    ensures
        notes_told(r, *store, root_hash@, text_of(*path)),
{
    let (root, segments) = match check_place(store, root_hash, path) {
        Ok(x) => x,
        Err(e) => {
            return Err(e);
        },
    };
    let n: usize = segments.len();
    if n == 0 {
        return match load_tree(store, &root) {
            Ok(t) => annotations_from_hash(store, &t.annotations_hash),
            Err(e) => Err(e),
        };
    }
    let ghost p = texts(segments@);
    assert(p.take(n - 1) =~= p.drop_last());
    assert(p.last() == segments@[n - 1]@);
    let parent = match resolve_dir_hash(store, &root, &segments, n - 1) {
        Ok(h) => h,
        Err(e) => {
            return Err(e);
        },
    };
    let tree = match load_tree(store, &parent) {
        Ok(t) => t,
        Err(e) => {
            return Err(e);
        },
    };
    let entry = match find_entry(&tree, segments[n - 1].as_str()) {
        Some(e) => e,
        None => {
            return Err(query_error("path not found"));
        },
    };
    if str_eq(entry.kind.as_str(), "file") {
        annotations_from_hash(store, &entry.annotations_hash)
    } else if str_eq(entry.kind.as_str(), "dir") {
        match load_tree(store, &hash_from_ref(&entry.hash)) {
            Ok(c) => annotations_from_hash(store, &c.annotations_hash),
            Err(e) => Err(e),
        }
    } else {
        Err(query_error("invalid entry kind"))
    }
}

/// The new root and the reference to the notes.
#[derive(Debug)]
pub struct WorkspaceAnnotationsSetReceipt {
    pub new_root_hash: HashRef,
    pub annotations_hash: HashRef,
}

/// The root, the reference to the notes and the store after the notes at a path have been changed.
pub open spec fn notes_changed(
    nodes: Map<Seq<u8>, NodeView>,
    root: Seq<char>,
    path: Option<Seq<char>>,
    patch: NotesPatch,
) -> Look<(Seq<u8>, Seq<char>, St)> {
    match place_checked(nodes, root, path) {
        Look::Missing => Look::Missing,
        Look::Fault(f) => Look::Fault(f),
        Look::Found((h, p)) => annotated(St { nodes, clean: true }, h, p, patch),
    }
}

/// What changing the notes at a path comes to.
pub open spec fn notes_set_told<S: Store<WorkspaceNode>>(
    r: Result<WorkspaceAnnotationsSetReceipt, KernelError>,
    before: S,
    after: S,
    root: Seq<char>,
    path: Option<Seq<char>>,
    patch: NotesPatch,
) -> bool {
    let look = notes_changed(before.nodes(), root, path, patch);
    &&& after.blobs() == before.blobs()
    &&& match r {
        Ok(x) => look is Found && x.new_root_hash@ == hash_text(look->Found_0.0)
            && x.annotations_hash@ == look->Found_0.1 && after.nodes() == look->Found_0.2.nodes,
        Err(e) => failed_writing::<S, _>(e, look),
    }
}

/// Changes the notes at a path.
pub fn handle_workspace_annotations_set<S: Store<WorkspaceNode>>(
    store: &mut S,
    root_hash: &str,
    path: &Option<String>,
    patch: &WorkspaceAnnotationsPatch,
) -> (r: Result<WorkspaceAnnotationsSetReceipt, KernelError>)
    ensures
        notes_set_told(r, *old(store), *final(store), root_hash@, text_of(*path), patch@),
{
    let (root, segments) = match check_place(store, root_hash, path) {
        Ok(x) => x,
        Err(e) => {
            return Err(e);
        },
    };
    match set_annotations_at_path(store, &root, &segments, patch) {
        Ok((h, n)) => Ok(
            WorkspaceAnnotationsSetReceipt {
                new_root_hash: HashRef::of_hash(&h),
                annotations_hash: n,
            },
        ),
        Err(e) => Err(e),
    }
}

} // verus!
