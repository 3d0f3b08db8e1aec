//! Reading and changing the trees of a workspace.
use vstd::prelude::*;

use crate::error::{is_query_error, KernelError};
use crate::hash::{hash_text, hex_bytes, sha256, ContentHash, HashRef};
use crate::store::{blob_fails, blob_write_fails, or_insert, read_fails, write_fails, Store,
    StoreError, StoreNode};
use crate::text::{join3, lex_lt, str_eq, str_lt};
use crate::workspace::{entries_view, is_segment, query_error, texts, validate_path_segment,
    EntryView, NodeView, TreeView, WorkspaceEntry, WorkspaceNode, WorkspaceTree, MODE_DIR,
    MODE_FILE_DEFAULT, MODE_FILE_EXEC};

verus! {

/// What is found, why it is refused, or that the store has nothing of the kind.
pub enum Look<T> {
    Found(T),
    Fault(Seq<char>),
    Missing,
}

/// Whether an error says that a node is not of the kind that was asked for.
pub open spec fn is_wrong_kind(e: StoreError, v: NodeView) -> bool {
    e matches StoreError::Cbor(t) && t@ == match v {
        NodeView::Annotations(_) => "missing field `entries`"@,
        NodeView::Tree(_) => "invalid type, expected notes"@,
    }
}

/// Whether an error is what a store answers when it is asked for a node or a blob, or says that a
/// node of it is of another kind.
pub open spec fn unread<S: Store<WorkspaceNode>>(e: KernelError, store: S) -> bool {
    e is Store && ({
        ||| exists|h: Seq<u8>| #[trigger] read_fails::<WorkspaceNode, S>(store, h, e->Store_0)
        ||| exists|h: Seq<u8>| #[trigger] blob_fails::<WorkspaceNode, S>(store, h, e->Store_0)
        ||| exists|h: Seq<u8>| #[trigger]
            store.nodes().contains_key(h) && is_wrong_kind(e->Store_0, store.nodes()[h])
    })
}

/// Whether an error is what a store answers, on the way, when it is asked for a node or a blob or
/// handed one.
pub open spec fn stopped<S: Store<WorkspaceNode>>(e: KernelError) -> bool {
    ||| exists|at: S| #[trigger] unread(e, at)
    ||| e is Store && exists|at: S, v: NodeView| #[trigger]
        write_fails::<WorkspaceNode, S>(at, v, e->Store_0)
    ||| e is Store && exists|at: S, b: Seq<u8>| #[trigger]
        blob_write_fails::<WorkspaceNode, S>(at, b, e->Store_0)
}

/// Whether `e` can be the outcome where `look` is what there is: the refusal, or a failure of the
/// store.
pub open spec fn failed<S: Store<WorkspaceNode>, T>(e: KernelError, store: S, look: Look<T>) -> bool {
    unread(e, store) || (look matches Look::Fault(t) && is_query_error(e, t))
}

/// The same where the store is written to.
pub open spec fn failed_writing<S: Store<WorkspaceNode>, T>(e: KernelError, look: Look<T>) -> bool {
    stopped::<S>(e) || (look matches Look::Fault(t) && is_query_error(e, t))
}

/// The digest in a reference.
pub open spec fn ref_hash(text: Seq<char>) -> Seq<u8> {
    hex_bytes(text.skip(7))
}

pub fn hash_from_ref(h: &HashRef) -> (r: ContentHash)
    ensures
        r@ == ref_hash(h@),
{
    match ContentHash::from_hex_str(h.as_str()) {
        Ok(x) => x,
        Err(_) => ContentHash::from_array([0u8; 32]),
    }
}

/// What is wrong with an entry that comes after one named `prev`.
pub open spec fn entry_fault(e: EntryView, prev: Option<Seq<char>>) -> Option<Seq<char>> {
    if !is_segment(e.name) {
        Some("invalid path segment"@)
    } else if prev is Some && !lex_lt(prev->0, e.name) {
        Some("workspace tree not sorted"@)
    } else if e.kind == "file"@ {
        if e.mode != MODE_FILE_DEFAULT && e.mode != MODE_FILE_EXEC {
            Some("invalid file mode"@)
        } else {
            None
        }
    } else if e.kind == "dir"@ {
        if e.mode != MODE_DIR || e.size != 0 {
            Some("invalid dir entry"@)
        } else {
            None
        }
    } else {
        Some("invalid entry kind"@)
    }
}

/// The name before position `i`.
pub open spec fn prev_name(entries: Seq<EntryView>, i: int) -> Option<Seq<char>> {
    if i <= 0 {
        None
    } else {
        Some(entries[i - 1].name)
    }
}

/// What is wrong with the first `n` entries of a directory; of several faults the first counts.
pub open spec fn tree_fault(entries: Seq<EntryView>, n: nat) -> Option<Seq<char>>
    decreases n,
{
    if n == 0 || n > entries.len() {
        None
    } else {
        match tree_fault(entries, (n - 1) as nat) {
            Some(f) => Some(f),
            None => entry_fault(entries[n - 1], prev_name(entries, n - 1)),
        }
    }
}

proof fn lemma_tree_fault(entries: Seq<EntryView>, k: nat, n: nat)
    requires
        k <= n <= entries.len(),
        tree_fault(entries, k) is Some,
    ensures
        tree_fault(entries, n) == tree_fault(entries, k),
    decreases n,
{
    if k < n {
        lemma_tree_fault(entries, k, (n - 1) as nat);
    }
}

fn check_entry(e: &WorkspaceEntry, prev: Option<&str>) -> (r: Result<(), KernelError>)
    ensures
        match (
            r,
            entry_fault(
                e@,
                match prev {
                    Some(p) => Some(p@),
                    None => None,
                },
            ),
        ) {
            (Ok(_), None) => true,
            (Err(x), Some(t)) => is_query_error(x, t),
            _ => false,
        },
{
    match validate_path_segment(e.name.as_str()) {
        Ok(_) => {},
        Err(x) => {
            return Err(x);
        },
    }
    if let Some(p) = prev {
        if !str_lt(p, e.name.as_str()) {
            return Err(query_error("workspace tree not sorted"));
        }
    }
    if str_eq(e.kind.as_str(), "file") {
        if e.mode != MODE_FILE_DEFAULT && e.mode != MODE_FILE_EXEC {
            return Err(query_error("invalid file mode"));
        }
    } else if str_eq(e.kind.as_str(), "dir") {
        if e.mode != MODE_DIR || e.size != 0 {
            return Err(query_error("invalid dir entry"));
        }
    } else {
        return Err(query_error("invalid entry kind"));
    }
    Ok(())
}

/// Whether a directory is as it must be: its names in order, its kinds and modes known.
pub fn validate_tree(tree: &WorkspaceTree) -> (r: Result<(), KernelError>)
    ensures
        match (r, tree_fault(tree@.entries, tree@.entries.len())) {
            (Ok(_), None) => true,
            (Err(e), Some(t)) => is_query_error(e, t),
            _ => false,
        },
{
    let ghost all = tree@.entries;
    let mut i: usize = 0;
    while i < tree.entries.len()
        invariant
            i <= tree.entries@.len(),
            all == tree@.entries,
            tree_fault(all, i as nat) is None,
        decreases tree.entries@.len() - i,
    {
        assert(all[i as int] == tree.entries@[i as int]@);
        let prev: Option<&str> = if i == 0 {
            None
        } else {
            assert(all[i - 1] == tree.entries@[i - 1]@);
            Some(tree.entries[i - 1].name.as_str())
        };
        match check_entry(&tree.entries[i], prev) {
            Ok(_) => {},
            Err(e) => {
                proof {
                    lemma_tree_fault(all, (i + 1) as nat, all.len());
                }
                return Err(e);
            },
        }
        i += 1;
    }
    Ok(())
}

/// The directory under a digest.
pub open spec fn tree_at(nodes: Map<Seq<u8>, NodeView>, hash: Seq<u8>) -> Look<TreeView> {
    if nodes.contains_key(hash) && nodes[hash] is Tree {
        let t = nodes[hash]->Tree_0;
        match tree_fault(t.entries, t.entries.len()) {
            Some(f) => Look::Fault(f),
            None => Look::Found(t),
        }
    } else {
        Look::Missing
    }
}

/// Loads a directory.
pub fn load_tree<S: Store<WorkspaceNode>>(store: &S, hash: &ContentHash) -> (r: Result<
    WorkspaceTree,
    KernelError,
>)
    ensures
        match r {
            Ok(t) => tree_at(store.nodes(), hash@) == Look::Found(t@),
            Err(e) => failed(e, *store, tree_at(store.nodes(), hash@)),
        },
{
    match store.get_node(*hash) {
        Err(e) => {
            assert(read_fails::<WorkspaceNode, S>(*store, hash@, e));
            Err(KernelError::Store(e))
        },
        Ok(WorkspaceNode::Annotations(_)) => {
            assert(store.nodes().contains_key(hash@));
            Err(KernelError::Store(StoreError::Cbor("missing field `entries`".to_owned())))
        },
        Ok(WorkspaceNode::Tree(tree)) => match validate_tree(&tree) {
            Ok(_) => Ok(tree),
            Err(e) => Err(e),
        },
    }
}

/// The first entry named `name`.
pub open spec fn entry_named(entries: Seq<EntryView>, name: Seq<char>) -> Option<EntryView>
    decreases entries.len(),
{
    if entries.len() == 0 {
        None
    } else if entries[0].name == name {
        Some(entries[0])
    } else {
        entry_named(entries.drop_first(), name)
    }
}

pub fn find_entry<'a>(tree: &'a WorkspaceTree, name: &str) -> (r: Option<&'a WorkspaceEntry>)
    ensures
        match (r, entry_named(tree@.entries, name@)) {
            (Some(e), Some(t)) => e@ == t,
            (None, None) => true,
            _ => false,
        },
{
    let ghost all = tree@.entries;
    let mut i: usize = 0;
    assert(all.skip(0) =~= all);
    while i < tree.entries.len()
        invariant
            i <= tree.entries@.len(),
            all == tree@.entries,
            entry_named(all, name@) == entry_named(all.skip(i as int), name@),
        decreases tree.entries@.len() - i,
    {
        assert(all.skip(i as int)[0] == tree.entries@[i as int]@);
        if str_eq(tree.entries[i].name.as_str(), name) {
            return Some(&tree.entries[i]);
        }
        assert(all.skip(i as int).drop_first() =~= all.skip(i + 1));
        i += 1;
    }
    None
}

/// The entries with `e` in its place: instead of the one with its name, or in name order.
pub open spec fn upserted(entries: Seq<EntryView>, e: EntryView) -> Seq<EntryView>
    decreases entries.len(),
{
    if entries.len() == 0 {
        seq![e]
    } else if entries[0].name == e.name {
        seq![e] + entries.drop_first()
    } else if lex_lt(e.name, entries[0].name) {
        seq![e] + entries
    } else {
        seq![entries[0]] + upserted(entries.drop_first(), e)
    }
}

pub fn upsert_entry(entries: &mut Vec<WorkspaceEntry>, entry: WorkspaceEntry)
    ensures
        entries_view(final(entries)@) == upserted(entries_view(old(entries)@), entry@),
{
    let ghost s = entries_view(entries@);
    let ghost e = entry@;
    let mut i: usize = 0;
    proof {
        assert(s.skip(0) =~= s);
        assert(s.take(0) + upserted(s, e) =~= upserted(s, e));
    }
    while i < entries.len()
        invariant
            i <= entries@.len(),
            *entries == *old(entries),
            s == entries_view(entries@),
            e == entry@,
            upserted(s, e) == s.take(i as int) + upserted(s.skip(i as int), e),
        decreases entries@.len() - i,
    {
        assert(s.skip(i as int)[0] == entries@[i as int]@);
        if str_eq(entries[i].name.as_str(), entry.name.as_str()) {
            entries.set(i, entry);
            proof {
                assert(s.skip(i as int).drop_first() =~= s.skip(i + 1));
                assert(entries_view(entries@) =~= s.take(i as int) + (seq![e] + s.skip(i + 1)));
            }
            return;
        }
        if str_lt(entry.name.as_str(), entries[i].name.as_str()) {
            entries.insert(i, entry);
            proof {
                assert(entries_view(entries@) =~= s.take(i as int) + (seq![e] + s.skip(i as int)));
            }
            return;
        }
        proof {
            assert(s.skip(i as int).drop_first() =~= s.skip(i + 1));
            assert(s.take(i as int) + (seq![s[i as int]] + upserted(s.skip(i + 1), e)) =~= s.take(
                i + 1,
            ) + upserted(s.skip(i + 1), e));
        }
        i += 1;
    }
    entries.push(entry);
    proof {
        assert(s.skip(i as int) =~= Seq::empty());
        assert(entries_view(entries@) =~= s.take(i as int) + seq![e]);
    }
}

/// The entries without the first one named `name`.
pub open spec fn without_entry(entries: Seq<EntryView>, name: Seq<char>) -> Seq<EntryView>
    decreases entries.len(),
{
    if entries.len() == 0 {
        entries
    } else if entries[0].name == name {
        entries.drop_first()
    } else {
        seq![entries[0]] + without_entry(entries.drop_first(), name)
    }
}

/// Takes an entry out.
pub fn remove_entry(entries: &mut Vec<WorkspaceEntry>, name: &str) -> (r: Result<
    WorkspaceEntry,
    KernelError,
>)
    ensures
        match (r, entry_named(entries_view(old(entries)@), name@)) {
            (Ok(e), Some(t)) => e@ == t && entries_view(final(entries)@) == without_entry(
                entries_view(old(entries)@),
                name@,
            ),
            (Err(e), None) => is_query_error(e, "path not found"@) && *final(entries) == *old(entries),
            _ => false,
        },
{
    let ghost s = entries_view(entries@);
    let mut i: usize = 0;
    proof {
        assert(s.skip(0) =~= s);
        assert(s.take(0) + without_entry(s, name@) =~= without_entry(s, name@));
    }
    while i < entries.len()
        invariant
            i <= entries@.len(),
            *entries == *old(entries),
            s == entries_view(entries@),
            entry_named(s, name@) == entry_named(s.skip(i as int), name@),
            without_entry(s, name@) == s.take(i as int) + without_entry(s.skip(i as int), name@),
        decreases entries@.len() - i,
    {
        assert(s.skip(i as int)[0] == entries@[i as int]@);
        if str_eq(entries[i].name.as_str(), name) {
            let e = entries.remove(i);
            proof {
                assert(s.skip(i as int).drop_first() =~= s.skip(i + 1));
                assert(entries_view(entries@) =~= s.take(i as int) + s.skip(i + 1));
            }
            return Ok(e);
        }
        proof {
            assert(s.skip(i as int).drop_first() =~= s.skip(i + 1));
            assert(s.take(i as int) + (seq![s[i as int]] + without_entry(s.skip(i + 1), name@))
                =~= s.take(i + 1) + without_entry(s.skip(i + 1), name@));
        }
        i += 1;
    }
    Err(query_error("path not found"))
}

/// The digest of the directory at a path.
pub open spec fn dir_at(
    nodes: Map<Seq<u8>, NodeView>,
    root: Seq<u8>,
    path: Seq<Seq<char>>,
) -> Look<Seq<u8>>
    decreases path.len(),
{
    if path.len() == 0 {
        Look::Found(root)
    } else {
        match tree_at(nodes, root) {
            Look::Missing => Look::Missing,
            Look::Fault(f) => Look::Fault(f),
            Look::Found(t) => match entry_named(t.entries, path[0]) {
                None => Look::Fault("missing path segment '"@ + path[0] + "'"@),
                Some(e) => if e.kind != "dir"@ {
                    Look::Fault("path is not a directory"@)
                } else {
                    dir_at(nodes, ref_hash(e.hash), path.drop_first())
                },
            },
        }
    }
}

/// The digest of the directory that the first `n` names of a path lead to.
pub fn resolve_dir_hash<S: Store<WorkspaceNode>>(
    store: &S,
    root_hash: &ContentHash,
    path: &Vec<String>,
    n: usize,
) -> (r: Result<ContentHash, KernelError>)
    requires
        n <= path@.len(),
    ensures
        match r {
            Ok(h) => dir_at(store.nodes(), root_hash@, texts(path@).take(n as int)) == Look::Found(
                h@,
            ),
            Err(e) => failed(
                e,
                *store,
                dir_at(store.nodes(), root_hash@, texts(path@).take(n as int)),
            ),
        },
{
    let ghost p = texts(path@).take(n as int);
    let ghost nodes = store.nodes();
    let mut current: ContentHash = *root_hash;
    let mut i: usize = 0;
    assert(p.skip(0) =~= p);
    while i < n
        invariant
            i <= n <= path@.len(),
            p == texts(path@).take(n as int),
            nodes == store.nodes(),
            dir_at(nodes, root_hash@, p) == dir_at(nodes, current@, p.skip(i as int)),
        decreases n - i,
    {
        assert(p.skip(i as int)[0] == path@[i as int]@);
        assert(p.skip(i as int).drop_first() =~= p.skip(i + 1));
        let tree = match load_tree(store, &current) {
            Ok(t) => t,
            Err(e) => {
                return Err(e);
            },
        };
        match find_entry(&tree, path[i].as_str()) {
            None => {
                return Err(
                    KernelError::Query(join3("missing path segment '", path[i].as_str(), "'")),
                );
            },
            Some(entry) => {
                if !str_eq(entry.kind.as_str(), "dir") {
                    return Err(query_error("path is not a directory"));
                }
                current = hash_from_ref(&entry.hash);
            },
        }
        i += 1;
    }
    assert(p.skip(i as int).len() == 0);
    Ok(current)
}

/// The entry at a path.
pub open spec fn resolved(
    nodes: Map<Seq<u8>, NodeView>,
    root: Seq<u8>,
    path: Seq<Seq<char>>,
) -> Look<Option<EntryView>>
    decreases path.len(),
{
    if path.len() == 0 {
        Look::Fault("path required"@)
    } else {
        match tree_at(nodes, root) {
            Look::Missing => Look::Missing,
            Look::Fault(f) => Look::Fault(f),
            Look::Found(t) => match entry_named(t.entries, path[0]) {
                None => Look::Found(None),
                Some(e) => if path.len() == 1 {
                    Look::Found(Some(e))
                } else if e.kind != "dir"@ {
                    Look::Fault("path is not a directory"@)
                } else {
                    resolved(nodes, ref_hash(e.hash), path.drop_first())
                },
            },
        }
    }
}

pub open spec fn entry_view(e: Option<WorkspaceEntry>) -> Option<EntryView> {
    match e {
        Some(x) => Some(x@),
        None => None,
    }
}

/// The entry at a path.
pub fn resolve_entry<S: Store<WorkspaceNode>>(
    store: &S,
    root_hash: &ContentHash,
    path: &Vec<String>,
) -> (r: Result<Option<WorkspaceEntry>, KernelError>)
    ensures
        match r {
            Ok(e) => resolved(store.nodes(), root_hash@, texts(path@)) == Look::Found(entry_view(e)),
            Err(e) => failed(e, *store, resolved(store.nodes(), root_hash@, texts(path@))),
        },
{
    let ghost p = texts(path@);
    let ghost nodes = store.nodes();
    let n: usize = path.len();
    if n == 0 {
        return Err(query_error("path required"));
    }
    let mut current: ContentHash = *root_hash;
    let mut i: usize = 0;
    assert(p.skip(0) =~= p);
    while i < n
        invariant
            i < n,
            n == path@.len(),
            p == texts(path@),
            nodes == store.nodes(),
            resolved(nodes, root_hash@, p) == resolved(nodes, current@, p.skip(i as int)),
        decreases n - i,
    {
        assert(p.skip(i as int)[0] == path@[i as int]@);
        assert(p.skip(i as int).drop_first() =~= p.skip(i + 1));
        let tree = match load_tree(store, &current) {
            Ok(t) => t,
            Err(e) => {
                return Err(e);
            },
        };
        match find_entry(&tree, path[i].as_str()) {
            None => {
                return Ok(None);
            },
            Some(entry) => {
                if i == n - 1 {
                    return Ok(Some(entry.copied()));
                }
                if !str_eq(entry.kind.as_str(), "dir") {
                    return Err(query_error("path is not a directory"));
                }
                current = hash_from_ref(&entry.hash);
            },
        }
        i += 1;
    }
    Ok(None)
}

/// A store while it is written to: its nodes, and whether every node went where it belongs,
/// because its digest was free or held the same node.
pub struct St {
    pub nodes: Map<Seq<u8>, NodeView>,
    pub clean: bool,
}

/// The digest of a node.
pub open spec fn digest_of(v: NodeView) -> Seq<u8> {
    sha256(WorkspaceNode::encoding(v)->Ok_0)
}

/// The store with one more node.
pub open spec fn put(st: St, v: NodeView) -> St {
    let nodes = or_insert(st.nodes, digest_of(v), v);
    St { nodes, clean: st.clean && nodes[digest_of(v)] == v }
}

fn put_tree<S: Store<WorkspaceNode>>(
    store: &mut S,
    tree: WorkspaceTree,
    Ghost(clean): Ghost<bool>,
) -> (r: Result<ContentHash, KernelError>)
    ensures
        final(store).blobs() == old(store).blobs(),
        match r {
            Ok(h) => h@ == digest_of(NodeView::Tree(tree@)) && final(store).nodes() == put(
                St { nodes: old(store).nodes(), clean },
                NodeView::Tree(tree@),
            ).nodes,
            Err(e) => stopped::<S>(e),
        },
{
    let ghost start = *store;
    match store.put_node(&WorkspaceNode::Tree(tree)) {
        Ok(h) => Ok(h),
        Err(e) => {
            assert(write_fails::<WorkspaceNode, S>(start, NodeView::Tree(tree@), e));
            Err(KernelError::Store(e))
        },
    }
}

/// A directory without entries.
pub open spec fn empty_tree() -> TreeView {
    TreeView { entries: Seq::empty(), annotations: None }
}

/// Stores the directory without entries.
pub fn put_empty_tree<S: Store<WorkspaceNode>>(store: &mut S) -> (r: Result<
    ContentHash,
    KernelError,
>)
    ensures
        final(store).blobs() == old(store).blobs(),
        match r {
            Ok(h) => h@ == digest_of(NodeView::Tree(empty_tree())) && final(store).nodes()
                == or_insert(old(store).nodes(), h@, NodeView::Tree(empty_tree())),
            Err(e) => stopped::<S>(e),
        },
{
    let tree = WorkspaceTree { entries: Vec::new(), annotations_hash: None };
    assert(tree@ =~= empty_tree());
    put_tree(store, tree, Ghost(true))
}

/// A file to be written: the reference to its content, its size and its mode.
pub struct FileView {
    pub hash: Seq<char>,
    pub size: u64,
    pub mode: u64,
}

/// The entry of a written file. It keeps the notes of the file that was there.
pub open spec fn file_entry(name: Seq<char>, existing: Option<EntryView>, file: FileView) -> EntryView {
    EntryView {
        name,
        kind: "file"@,
        hash: file.hash,
        size: file.size,
        mode: file.mode,
        annotations: match existing {
            Some(e) => if e.kind == "file"@ {
                e.annotations
            } else {
                None
            },
            None => None,
        },
    }
}

/// The entry of a directory whose content has changed.
pub open spec fn dir_entry(name: Seq<char>, existing: Option<EntryView>, child: Seq<u8>) -> EntryView {
    EntryView {
        name,
        kind: "dir"@,
        hash: hash_text(child),
        size: 0,
        mode: MODE_DIR,
        annotations: match existing {
            Some(e) => e.annotations,
            None => None,
        },
    }
}

/// The directory with an entry in its place.
pub open spec fn with_entry(t: TreeView, e: EntryView) -> NodeView {
    NodeView::Tree(TreeView { entries: upserted(t.entries, e), ..t })
}

/// The root and the store after a file has been written at a path. Directories that are missing
/// on the way are made.
pub open spec fn written(st: St, root: Seq<u8>, path: Seq<Seq<char>>, file: FileView) -> Look<
    (Seq<u8>, St),
>
    decreases path.len(),
{
    if path.len() == 0 {
        Look::Missing
    } else {
        match tree_at(st.nodes, root) {
            Look::Missing => Look::Missing,
            Look::Fault(f) => Look::Fault(f),
            Look::Found(t) => {
                let existing = entry_named(t.entries, path[0]);
                if path.len() == 1 {
                    let node = with_entry(t, file_entry(path[0], existing, file));
                    Look::Found((digest_of(node), put(st, node)))
                } else if existing is Some && existing->0.kind != "dir"@ {
                    Look::Fault("path is not a directory"@)
                } else {
                    let (child, mid) = match existing {
                        Some(e) => (ref_hash(e.hash), st),
                        None => (
                            digest_of(NodeView::Tree(empty_tree())),
                            put(st, NodeView::Tree(empty_tree())),
                        ),
                    };
                    match written(mid, child, path.drop_first(), file) {
                        Look::Missing => Look::Missing,
                        Look::Fault(f) => Look::Fault(f),
                        Look::Found((new_child, last)) => {
                            let node = with_entry(t, dir_entry(path[0], existing, new_child));
                            Look::Found((digest_of(node), put(last, node)))
                        },
                    }
                }
            },
        }
    }
}

fn write_at<S: Store<WorkspaceNode>>(
    store: &mut S,
    tree_hash: &ContentHash,
    path: &Vec<String>,
    at: usize,
    blob_hash: &HashRef,
    size: u64,
    mode: u64,
    Ghost(clean): Ghost<bool>,
) -> (r: Result<ContentHash, KernelError>)
    requires
        at < path@.len(),
    ensures
        final(store).blobs() == old(store).blobs(),
        ({
            let look = written(
                St { nodes: old(store).nodes(), clean },
                tree_hash@,
                texts(path@).skip(at as int),
                FileView { hash: blob_hash@, size, mode },
            );
            match r {
                Ok(h) => look is Found && look->Found_0.0 == h@ && look->Found_0.1.nodes == final(store).nodes(),
                Err(e) => failed_writing::<S, _>(e, look),
            }
        }),
    decreases path@.len() - at,
{
    let ghost st = St { nodes: store.nodes(), clean };
    let ghost p = texts(path@).skip(at as int);
    let ghost file = FileView { hash: blob_hash@, size, mode };
    assert(p[0] == path@[at as int]@);
    assert(p.drop_first() =~= texts(path@).skip(at + 1));
    let tree = match load_tree(store, tree_hash) {
        Ok(t) => t,
        Err(e) => {
            return Err(e);
        },
    };
    let ghost t = tree@;
    let existing: Option<WorkspaceEntry> = match find_entry(&tree, path[at].as_str()) {
        Some(e) => Some(e.copied()),
        None => None,
    };
    let ghost ex = entry_view(existing);
    assert(ex == entry_named(t.entries, p[0]));
    let mut tree = tree;
    if at == path.len() - 1 {
        let annotations_hash = match existing {
            Some(e) => if str_eq(e.kind.as_str(), "file") {
                e.annotations_hash
            } else {
                None
            },
            None => None,
        };
        let entry = WorkspaceEntry {
            name: path[at].clone(),
            kind: "file".to_owned(),
            hash: blob_hash.clone(),
            size,
            mode,
            annotations_hash,
        };
        assert(entry@ == file_entry(p[0], ex, file));
        upsert_entry(&mut tree.entries, entry);
        return put_tree(store, tree, Ghost(clean));
    }
    let child_hash = match &existing {
        Some(e) => {
            if !str_eq(e.kind.as_str(), "dir") {
                return Err(query_error("path is not a directory"));
            }
            hash_from_ref(&e.hash)
        },
        None => match put_empty_tree(store) {
            Ok(h) => h,
            Err(e) => {
                return Err(e);
            },
        },
    };
    let ghost mid = match ex {
        Some(e) => st,
        None => put(st, NodeView::Tree(empty_tree())),
    };
    assert(mid.nodes == store.nodes());
    let new_child = match write_at(
        store,
        &child_hash,
        path,
        at + 1,
        blob_hash,
        size,
        mode,
        Ghost(mid.clean),
    ) {
        Ok(h) => h,
        Err(e) => {
            return Err(e);
        },
    };
    let ghost last = written(mid, child_hash@, p.drop_first(), file)->Found_0.1;
    let annotations_hash = match existing {
        Some(e) => e.annotations_hash,
        None => None,
    };
    let entry = WorkspaceEntry {
        name: path[at].clone(),
        kind: "dir".to_owned(),
        hash: HashRef::of_hash(&new_child),
        size: 0,
        mode: MODE_DIR,
        annotations_hash,
    };
    assert(entry@ == dir_entry(p[0], ex, new_child@));
    upsert_entry(&mut tree.entries, entry);
    put_tree(store, tree, Ghost(last.clean))
}

/// Writes a file at a path: returns the digest of the new root. Directories that are missing on
/// the way are made.
pub fn write_file_at_path<S: Store<WorkspaceNode>>(
    store: &mut S,
    tree_hash: &ContentHash,
    path: &Vec<String>,
    blob_hash: &HashRef,
    size: u64,
    mode: u64,
) -> (r: Result<ContentHash, KernelError>)
    requires
        path@.len() > 0,
    ensures
        final(store).blobs() == old(store).blobs(),
        ({
            let look = written(
                St { nodes: old(store).nodes(), clean: true },
                tree_hash@,
                texts(path@),
                FileView { hash: blob_hash@, size, mode },
            );
            match r {
                Ok(h) => look is Found && look->Found_0.0 == h@ && look->Found_0.1.nodes == final(store).nodes(),
                Err(e) => failed_writing::<S, _>(e, look),
            }
        }),
{
    assert(texts(path@).skip(0) =~= texts(path@));
    write_at(store, tree_hash, path, 0, blob_hash, size, mode, Ghost(true))
}

/// The directory without an entry.
pub open spec fn without(t: TreeView, name: Seq<char>) -> NodeView {
    NodeView::Tree(TreeView { entries: without_entry(t.entries, name), ..t })
}

/// The root and the store after the entry at a path has been removed. A directory must be empty.
pub open spec fn removed(st: St, root: Seq<u8>, path: Seq<Seq<char>>) -> Look<(Seq<u8>, St)>
    decreases path.len(),
{
    if path.len() == 0 {
        Look::Missing
    } else {
        match tree_at(st.nodes, root) {
            Look::Missing => Look::Missing,
            Look::Fault(f) => Look::Fault(f),
            Look::Found(t) => match entry_named(t.entries, path[0]) {
                None => Look::Fault("path not found"@),
                Some(e) => if path.len() == 1 {
                    let node = without(t, path[0]);
                    let done = Look::Found((digest_of(node), put(st, node)));
                    if e.kind == "dir"@ {
                        match tree_at(st.nodes, ref_hash(e.hash)) {
                            Look::Missing => Look::Missing,
                            Look::Fault(f) => Look::Fault(f),
                            Look::Found(c) => if c.entries.len() > 0 {
                                Look::Fault("directory not empty"@)
                            } else {
                                done
                            },
                        }
                    } else {
                        done
                    }
                } else if e.kind != "dir"@ {
                    Look::Fault("path is not a directory"@)
                } else {
                    match removed(st, ref_hash(e.hash), path.drop_first()) {
                        Look::Missing => Look::Missing,
                        Look::Fault(f) => Look::Fault(f),
                        Look::Found((new_child, last)) => {
                            let node = with_entry(t, dir_entry(path[0], Some(e), new_child));
                            Look::Found((digest_of(node), put(last, node)))
                        },
                    }
                },
            },
        }
    }
}

fn remove_at<S: Store<WorkspaceNode>>(
    store: &mut S,
    tree_hash: &ContentHash,
    path: &Vec<String>,
    at: usize,
    Ghost(clean): Ghost<bool>,
) -> (r: Result<ContentHash, KernelError>)
    requires
        at < path@.len(),
    ensures
        final(store).blobs() == old(store).blobs(),
        ({
            let look = removed(
                St { nodes: old(store).nodes(), clean },
                tree_hash@,
                texts(path@).skip(at as int),
            );
            match r {
                Ok(h) => look is Found && look->Found_0.0 == h@ && look->Found_0.1.nodes == final(store).nodes(),
                Err(e) => failed_writing::<S, _>(e, look),
            }
        }),
    decreases path@.len() - at,
{
    let ghost st = St { nodes: store.nodes(), clean };
    let ghost p = texts(path@).skip(at as int);
    assert(p[0] == path@[at as int]@);
    assert(p.drop_first() =~= texts(path@).skip(at + 1));
    let mut tree = match load_tree(store, tree_hash) {
        Ok(t) => t,
        Err(e) => {
            return Err(e);
        },
    };
    let ghost t = tree@;
    if at == path.len() - 1 {
        let entry = match remove_entry(&mut tree.entries, path[at].as_str()) {
            Ok(e) => e,
            Err(e) => {
                return Err(e);
            },
        };
        if str_eq(entry.kind.as_str(), "dir") {
            let child = match load_tree(store, &hash_from_ref(&entry.hash)) {
                Ok(c) => c,
                Err(e) => {
                    return Err(e);
                },
            };
            if child.entries.len() > 0 {
                return Err(query_error("directory not empty"));
            }
        }
        return put_tree(store, tree, Ghost(clean));
    }
    let existing = match find_entry(&tree, path[at].as_str()) {
        Some(e) => e.copied(),
        None => {
            return Err(query_error("path not found"));
        },
    };
    let ghost ex = existing@;
    if !str_eq(existing.kind.as_str(), "dir") {
        return Err(query_error("path is not a directory"));
    }
    let child_hash = hash_from_ref(&existing.hash);
    let new_child = match remove_at(store, &child_hash, path, at + 1, Ghost(clean)) {
        Ok(h) => h,
        Err(e) => {
            return Err(e);
        },
    };
    let ghost last = removed(st, child_hash@, p.drop_first())->Found_0.1;
    let entry = WorkspaceEntry {
        name: path[at].clone(),
        kind: "dir".to_owned(),
        hash: HashRef::of_hash(&new_child),
        size: 0,
        mode: MODE_DIR,
        annotations_hash: existing.annotations_hash,
    };
    assert(entry@ == dir_entry(p[0], Some(ex), new_child@));
    upsert_entry(&mut tree.entries, entry);
    put_tree(store, tree, Ghost(last.clean))
}

/// Removes the entry at a path: returns the digest of the new root. A directory must be empty.
pub fn remove_entry_at_path<S: Store<WorkspaceNode>>(
    store: &mut S,
    tree_hash: &ContentHash,
    path: &Vec<String>,
) -> (r: Result<ContentHash, KernelError>)
    requires
        path@.len() > 0,
    ensures
        final(store).blobs() == old(store).blobs(),
        ({
            let look = removed(
                St { nodes: old(store).nodes(), clean: true },
                tree_hash@,
                texts(path@),
            );
            match r {
                Ok(h) => look is Found && look->Found_0.0 == h@ && look->Found_0.1.nodes == final(store).nodes(),
                Err(e) => failed_writing::<S, _>(e, look),
            }
        }),
{
    assert(texts(path@).skip(0) =~= texts(path@));
    remove_at(store, tree_hash, path, 0, Ghost(true))
}

/// The mode of a file to be written: the one that is asked for, else that of the file that is
/// there, else the usual one.
pub open spec fn file_mode(existing: Option<EntryView>, requested: Option<u64>) -> Option<u64> {
    match requested {
        Some(m) => if m != MODE_FILE_DEFAULT && m != MODE_FILE_EXEC {
            None
        } else {
            Some(m)
        },
        None => match existing {
            Some(e) => if e.kind == "file"@ {
                Some(e.mode)
            } else {
                Some(MODE_FILE_DEFAULT)
            },
            None => Some(MODE_FILE_DEFAULT),
        },
    }
}

pub fn resolve_file_mode(existing: Option<&WorkspaceEntry>, requested: Option<u64>) -> (r: Result<
    u64,
    KernelError,
>)
    ensures
        match (
            r,
            file_mode(
                match existing {
                    Some(e) => Some(e@),
                    None => None,
                },
                requested,
            ),
        ) {
            (Ok(m), Some(t)) => m == t,
            (Err(e), None) => is_query_error(e, "invalid file mode"@),
            _ => false,
        },
{
    if let Some(mode) = requested {
        if mode != MODE_FILE_DEFAULT && mode != MODE_FILE_EXEC {
            return Err(query_error("invalid file mode"));
        }
        return Ok(mode);
    }
    if let Some(e) = existing {
        if str_eq(e.kind.as_str(), "file") {
            return Ok(e.mode);
        }
    }
    Ok(MODE_FILE_DEFAULT)
}

} // verus!
