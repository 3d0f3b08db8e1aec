//! Annotations of files and directories.
use vstd::prelude::*;

use crate::error::KernelError;
use crate::hash::{hash_text, ContentHash, HashRef};
use crate::store::{read_fails, write_fails, Store, StoreError, StoreNode};
use crate::text::{lex_lt, str_eq, str_lt};
use crate::workspace::ops::{digest_of, entry_named, failed_writing, find_entry, hash_from_ref,
    load_tree, put, ref_hash, stopped, tree_at, unread, upsert_entry, with_entry, Look, St};
use crate::workspace::{hash_view, query_error, texts, EntryView, NodeView, NotesView, TreeView,
    WorkspaceAnnotations, WorkspaceEntry, WorkspaceNode, WorkspaceTree};

verus! {

/// A change of notes: under each key a new reference, or none where the key is to go.
#[derive(Debug)]
pub struct WorkspaceAnnotationsPatch {
    pub items: Vec<(String, Option<HashRef>)>,
}

/// The model of a change of notes.
pub type NotesPatch = Seq<(Seq<char>, Option<Seq<char>>)>;

impl View for WorkspaceAnnotationsPatch {
    type V = NotesPatch;

    open spec fn view(&self) -> NotesPatch {
        Seq::new(self.items@.len(), |i: int| (self.items@[i].0@, hash_view(self.items@[i].1)))
    }
}

/// The notes with a reference under a key.
pub open spec fn note_set(n: NotesView, key: Seq<char>, hash: Seq<char>) -> NotesView
    decreases n.len(),
{
    if n.len() == 0 {
        seq![(key, hash)]
    } else if n[0].0 == key {
        seq![(key, hash)] + n.drop_first()
    } else if lex_lt(key, n[0].0) {
        seq![(key, hash)] + n
    } else {
        seq![n[0]] + note_set(n.drop_first(), key, hash)
    }
}

/// The notes without a key.
pub open spec fn note_dropped(n: NotesView, key: Seq<char>) -> NotesView
    decreases n.len(),
{
    if n.len() == 0 {
        n
    } else if n[0].0 == key {
        n.drop_first()
    } else {
        seq![n[0]] + note_dropped(n.drop_first(), key)
    }
}

/// The reference under a key.
pub open spec fn note_at(n: NotesView, key: Seq<char>) -> Option<Seq<char>>
    decreases n.len(),
{
    if n.len() == 0 {
        None
    } else if n[0].0 == key {
        Some(n[0].1)
    } else {
        note_at(n.drop_first(), key)
    }
}

/// The notes after the first `k` changes.
pub open spec fn notes_patched(n: NotesView, patch: NotesPatch, k: nat) -> NotesView
    decreases k,
{
    if k == 0 || k > patch.len() {
        n
    } else {
        let before = notes_patched(n, patch, (k - 1) as nat);
        match patch[k - 1].1 {
            Some(h) => note_set(before, patch[k - 1].0, h),
            None => note_dropped(before, patch[k - 1].0),
        }
    }
}

/// Setting a note is seen under its key and nowhere else.
pub proof fn lemma_note_set(n: NotesView, key: Seq<char>, hash: Seq<char>, other: Seq<char>)
    ensures
        note_at(note_set(n, key, hash), other) == (if other == key {
            Some(hash)
        } else {
            note_at(n, other)
        }),
    decreases n.len(),
{
    let t = note_set(n, key, hash);
    reveal_with_fuel(note_at, 2);
    if n.len() == 0 {
        assert(t.drop_first() =~= Seq::empty());
    } else if n[0].0 == key {
        assert(t.drop_first() =~= n.drop_first());
    } else if lex_lt(key, n[0].0) {
        assert(t.drop_first() =~= n);
    } else {
        assert(t.drop_first() =~= note_set(n.drop_first(), key, hash));
        assert(t[0] == n[0]);
        lemma_note_set(n.drop_first(), key, hash, other);
    }
}

spec fn items_view(items: Seq<(String, HashRef)>) -> NotesView {
    Seq::new(items.len(), |i: int| (items[i].0@, items[i].1@))
}

fn set_note(items: &mut Vec<(String, HashRef)>, key: &str, hash: &HashRef)
    ensures
        items_view(final(items)@) == note_set(items_view(old(items)@), key@, hash@),
{
    let ghost s = items_view(items@);
    let ghost e = (key@, hash@);
    let mut i: usize = 0;
    proof {
        assert(s.skip(0) =~= s);
        assert(s.take(0) + note_set(s, key@, hash@) =~= note_set(s, key@, hash@));
    }
    while i < items.len()
        invariant
            i <= items@.len(),
            *items == *old(items),
            s == items_view(items@),
            e == (key@, hash@),
            note_set(s, key@, hash@) == s.take(i as int) + note_set(
                s.skip(i as int),
                key@,
                hash@,
            ),
        decreases items@.len() - i,
    {
        assert(s.skip(i as int)[0] == (items@[i as int].0@, items@[i as int].1@));
        if str_eq(items[i].0.as_str(), key) {
            items.set(i, (key.to_owned(), hash.clone()));
            proof {
                assert(s.skip(i as int).drop_first() =~= s.skip(i + 1));
                assert(items_view(items@) =~= s.take(i as int) + (seq![e] + s.skip(i + 1)));
            }
            return;
        }
        if str_lt(key, items[i].0.as_str()) {
            items.insert(i, (key.to_owned(), hash.clone()));
            proof {
                assert(items_view(items@) =~= s.take(i as int) + (seq![e] + s.skip(i as int)));
            }
            return;
        }
        proof {
            assert(s.skip(i as int).drop_first() =~= s.skip(i + 1));
            assert(s.take(i as int) + (seq![s[i as int]] + note_set(s.skip(i + 1), key@, hash@))
                =~= s.take(i + 1) + note_set(s.skip(i + 1), key@, hash@));
        }
        i += 1;
    }
    items.push((key.to_owned(), hash.clone()));
    proof {
        assert(s.skip(i as int) =~= Seq::empty());
        assert(items_view(items@) =~= s.take(i as int) + seq![e]);
    }
}

fn drop_note(items: &mut Vec<(String, HashRef)>, key: &str)
    ensures
        items_view(final(items)@) == note_dropped(items_view(old(items)@), key@),
{
    let ghost s = items_view(items@);
    let mut i: usize = 0;
    proof {
        assert(s.skip(0) =~= s);
        assert(s.take(0) + note_dropped(s, key@) =~= note_dropped(s, key@));
    }
    while i < items.len()
        invariant
            i <= items@.len(),
            *items == *old(items),
            s == items_view(items@),
            note_dropped(s, key@) == s.take(i as int) + note_dropped(s.skip(i as int), key@),
        decreases items@.len() - i,
    {
        assert(s.skip(i as int)[0] == (items@[i as int].0@, items@[i as int].1@));
        if str_eq(items[i].0.as_str(), key) {
            items.remove(i);
            proof {
                assert(s.skip(i as int).drop_first() =~= s.skip(i + 1));
                assert(items_view(items@) =~= s.take(i as int) + s.skip(i + 1));
            }
            return;
        }
        proof {
            assert(s.skip(i as int).drop_first() =~= s.skip(i + 1));
            assert(s.take(i as int) + (seq![s[i as int]] + note_dropped(s.skip(i + 1), key@))
                =~= s.take(i + 1) + note_dropped(s.skip(i + 1), key@));
        }
        i += 1;
    }
    proof {
        assert(s.skip(i as int) =~= Seq::empty());
        assert(s.take(i as int) + Seq::empty() =~= s);
    }
}

/// The notes under a reference.
pub open spec fn notes_at(nodes: Map<Seq<u8>, NodeView>, hash: Option<Seq<char>>) -> Look<
    Option<NotesView>,
> {
    match hash {
        None => Look::Found(None),
        Some(h) => if nodes.contains_key(ref_hash(h)) && nodes[ref_hash(h)] is Annotations {
            Look::Found(Some(nodes[ref_hash(h)]->Annotations_0))
        } else {
            Look::Missing
        },
    }
}

pub open spec fn notes_view(n: Option<WorkspaceAnnotations>) -> Option<NotesView> {
    match n {
        Some(x) => Some(x@),
        None => None,
    }
}

/// Loads notes.
pub fn annotations_from_hash<S: Store<WorkspaceNode>>(store: &S, hash: &Option<HashRef>) -> (r:
    Result<Option<WorkspaceAnnotations>, KernelError>)
    ensures
        match r {
            Ok(n) => notes_at(store.nodes(), hash_view(*hash)) == Look::Found(notes_view(n)),
            Err(e) => unread(e, *store) && hash is Some,
        },
{
    match hash {
        None => Ok(None),
        Some(h) => match store.get_node(hash_from_ref(h)) {
            Err(e) => {
                assert(read_fails::<WorkspaceNode, S>(*store, ref_hash(h@), e));
                Err(KernelError::Store(e))
            },
            Ok(WorkspaceNode::Tree(_)) => {
                assert(store.nodes().contains_key(ref_hash(h@)));
                Err(KernelError::Store(StoreError::Cbor("invalid type, expected notes".to_owned())))
            },
            Ok(WorkspaceNode::Annotations(a)) => Ok(Some(a)),
        },
    }
}

/// The reference to the changed notes, and the store that holds them.
pub open spec fn patch_stored(st: St, current: Option<Seq<char>>, patch: NotesPatch) -> Look<
    (Seq<char>, St),
> {
    match notes_at(st.nodes, current) {
        Look::Missing => Look::Missing,
        Look::Fault(f) => Look::Fault(f),
        Look::Found(n) => {
            let start = match n {
                Some(x) => x,
                None => Seq::empty(),
            };
            let node = NodeView::Annotations(notes_patched(start, patch, patch.len()));
            Look::Found((hash_text(digest_of(node)), put(st, node)))
        },
    }
}

/// Changes notes and stores them.
fn apply_annotations_patch<S: Store<WorkspaceNode>>(
    store: &mut S,
    current: &Option<HashRef>,
    patch: &WorkspaceAnnotationsPatch,
    Ghost(clean): Ghost<bool>,
) -> (r: Result<HashRef, KernelError>)
    ensures
        final(store).blobs() == old(store).blobs(),
        ({
            let look = patch_stored(
                St { nodes: old(store).nodes(), clean },
                hash_view(*current),
                patch@,
            );
            match r {
                Ok(h) => look is Found && look->Found_0.0 == h@ && look->Found_0.1.nodes
                    == final(store).nodes(),
                Err(e) => stopped::<S>(e),
            }
        }),
{
    let mut items: Vec<(String, HashRef)> = match annotations_from_hash(store, current) {
        Err(e) => {
            return Err(e);
        },
        Ok(Some(n)) => n.items,
        Ok(None) => Vec::new(),
    };
    let ghost start = items_view(items@);
    assert(match notes_at(store.nodes(), hash_view(*current)) {
        Look::Found(Some(n)) => start =~= n,
        Look::Found(None) => start =~= Seq::empty(),
        _ => false,
    });
    let mut i: usize = 0;
    while i < patch.items.len()
        invariant
            i <= patch.items@.len(),
            items_view(items@) == notes_patched(start, patch@, i as nat),
        decreases patch.items@.len() - i,
    {
        assert(patch@[i as int] == (patch.items@[i as int].0@, hash_view(
            patch.items@[i as int].1,
        )));
        match &patch.items[i].1 {
            Some(h) => set_note(&mut items, patch.items[i].0.as_str(), h),
            None => drop_note(&mut items, patch.items[i].0.as_str()),
        }
        i += 1;
    }
    let notes = WorkspaceAnnotations { items };
    assert(notes@ =~= items_view(items@));
    let ghost at = *store;
    let ghost kept = notes@;
    match store.put_node(&WorkspaceNode::Annotations(notes)) {
        Ok(h) => Ok(HashRef::of_hash(&h)),
        Err(e) => {
            assert(write_fails::<WorkspaceNode, S>(at, NodeView::Annotations(kept), e));
            Err(KernelError::Store(e))
        },
    }
}

/// A file with other notes.
pub open spec fn annotated_entry(e: EntryView, notes: Seq<char>) -> EntryView {
    EntryView { annotations: Some(notes), ..e }
}

/// A directory whose content has changed.
pub open spec fn moved_entry(e: EntryView, child: Seq<u8>) -> EntryView {
    EntryView { hash: hash_text(child), ..e }
}

/// The root, the reference to the notes and the store after the notes at a path have been
/// changed. The notes of a file stand in its entry, those of a directory in the directory.
pub open spec fn annotated(st: St, root: Seq<u8>, path: Seq<Seq<char>>, patch: NotesPatch) -> Look<
    (Seq<u8>, Seq<char>, St),
>
    decreases path.len(),
{
    match tree_at(st.nodes, root) {
        Look::Missing => Look::Missing,
        Look::Fault(f) => Look::Fault(f),
        Look::Found(t) => if path.len() == 0 {
            match patch_stored(st, t.annotations, patch) {
                Look::Missing => Look::Missing,
                Look::Fault(f) => Look::Fault(f),
                Look::Found((notes, mid)) => {
                    let node = NodeView::Tree(TreeView { annotations: Some(notes), ..t });
                    Look::Found((digest_of(node), notes, put(mid, node)))
                },
            }
        } else {
            match entry_named(t.entries, path[0]) {
                None => Look::Fault("path not found"@),
                Some(e) => if path.len() == 1 && e.kind == "file"@ {
                    match patch_stored(st, e.annotations, patch) {
                        Look::Missing => Look::Missing,
                        Look::Fault(f) => Look::Fault(f),
                        Look::Found((notes, mid)) => {
                            let node = with_entry(t, annotated_entry(e, notes));
                            Look::Found((digest_of(node), notes, put(mid, node)))
                        },
                    }
                } else if e.kind != "dir"@ {
                    Look::Fault(
                        if path.len() == 1 {
                            "invalid entry kind"@
                        } else {
                            "path is not a directory"@
                        },
                    )
                } else {
                    match annotated(st, ref_hash(e.hash), path.drop_first(), patch) {
                        Look::Missing => Look::Missing,
                        Look::Fault(f) => Look::Fault(f),
                        Look::Found((child, notes, mid)) => {
                            let node = with_entry(t, moved_entry(e, child));
                            Look::Found((digest_of(node), notes, put(mid, node)))
                        },
                    }
                },
            }
        },
    }
}

fn put_node<S: Store<WorkspaceNode>>(
    store: &mut S,
    tree: WorkspaceTree,
    Ghost(clean): Ghost<bool>,
) -> (r: Result<ContentHash, KernelError>)
    ensures
        final(store).blobs() == old(store).blobs(),
        match r {
            Ok(h) => h@ == digest_of(NodeView::Tree(tree@)) && final(store).nodes() == put(
                St { nodes: old(store).nodes(), clean },
                NodeView::Tree(tree@),
            ).nodes,
            Err(e) => stopped::<S>(e),
        },
{
    let ghost start = *store;
    match store.put_node(&WorkspaceNode::Tree(tree)) {
        Ok(h) => Ok(h),
        Err(e) => {
            assert(write_fails::<WorkspaceNode, S>(start, NodeView::Tree(tree@), e));
            Err(KernelError::Store(e))
        },
    }
}

fn annotate_at<S: Store<WorkspaceNode>>(
    store: &mut S,
    tree_hash: &ContentHash,
    path: &Vec<String>,
    at: usize,
    patch: &WorkspaceAnnotationsPatch,
    Ghost(clean): Ghost<bool>,
) -> (r: Result<(ContentHash, HashRef), KernelError>)
    requires
        at <= path@.len(),
    ensures
        final(store).blobs() == old(store).blobs(),
        ({
            let look = annotated(
                St { nodes: old(store).nodes(), clean },
                tree_hash@,
                texts(path@).skip(at as int),
                patch@,
            );
            match r {
                Ok((h, n)) => look is Found && look->Found_0.0 == h@ && look->Found_0.1 == n@
                    && look->Found_0.2.nodes == final(store).nodes(),
                Err(e) => failed_writing::<S, _>(e, look),
            }
        }),
    decreases path@.len() - at,
{
    let ghost st = St { nodes: store.nodes(), clean };
    let ghost p = texts(path@).skip(at as int);
    let mut tree = match load_tree(store, tree_hash) {
        Ok(t) => t,
        Err(e) => {
            return Err(e);
        },
    };
    let ghost t = tree@;
    if at == path.len() {
        let notes = match apply_annotations_patch(
            store,
            &tree.annotations_hash,
            patch,
            Ghost(clean),
        ) {
            Ok(h) => h,
            Err(e) => {
                return Err(e);
            },
        };
        let ghost mid = patch_stored(st, t.annotations, patch@)->Found_0.1;
        tree.annotations_hash = Some(notes.clone());
        return match put_node(store, tree, Ghost(mid.clean)) {
            Ok(h) => Ok((h, notes)),
            Err(e) => Err(e),
        };
    }
    assert(p[0] == path@[at as int]@);
    assert(p.drop_first() =~= texts(path@).skip(at + 1));
    let entry = match find_entry(&tree, path[at].as_str()) {
        Some(e) => e.copied(),
        None => {
            return Err(query_error("path not found"));
        },
    };
    let ghost e = entry@;
    let last = at == path.len() - 1;
    if last && str_eq(entry.kind.as_str(), "file") {
        let notes = match apply_annotations_patch(
            store,
            &entry.annotations_hash,
            patch,
            Ghost(clean),
        ) {
            Ok(h) => h,
            Err(e) => {
                return Err(e);
            },
        };
        let ghost mid = patch_stored(st, e.annotations, patch@)->Found_0.1;
        let updated = WorkspaceEntry { annotations_hash: Some(notes.clone()), ..entry };
        assert(updated@ == annotated_entry(e, notes@));
        upsert_entry(&mut tree.entries, updated);
        return match put_node(store, tree, Ghost(mid.clean)) {
            Ok(h) => Ok((h, notes)),
            Err(e) => Err(e),
        };
    }
    if !str_eq(entry.kind.as_str(), "dir") {
        if last {
            return Err(query_error("invalid entry kind"));
        }
        return Err(query_error("path is not a directory"));
    }
    let child_hash = hash_from_ref(&entry.hash);
    let (new_child, notes) = match annotate_at(
        store,
        &child_hash,
        path,
        at + 1,
        patch,
        Ghost(clean),
    ) {
        Ok(x) => x,
        Err(e) => {
            return Err(e);
        },
    };
    let ghost mid = annotated(st, child_hash@, p.drop_first(), patch@)->Found_0.2;
    let updated = WorkspaceEntry { hash: HashRef::of_hash(&new_child), ..entry };
    assert(updated@ == moved_entry(e, new_child@));
    upsert_entry(&mut tree.entries, updated);
    match put_node(store, tree, Ghost(mid.clean)) {
        Ok(h) => Ok((h, notes)),
        Err(e) => Err(e),
    }
}

/// Changes the notes at a path, or those of the root where the path is empty: returns the digest
/// of the new root and the reference to the notes.
pub fn set_annotations_at_path<S: Store<WorkspaceNode>>(
    store: &mut S,
    tree_hash: &ContentHash,
    path: &Vec<String>,
    patch: &WorkspaceAnnotationsPatch,
) -> (r: Result<(ContentHash, HashRef), KernelError>)
    ensures
        final(store).blobs() == old(store).blobs(),
        ({
            let look = annotated(
                St { nodes: old(store).nodes(), clean: true },
                tree_hash@,
                texts(path@),
                patch@,
            );
            match r {
                Ok((h, n)) => look is Found && look->Found_0.0 == h@ && look->Found_0.1 == n@
                    && look->Found_0.2.nodes == final(store).nodes(),
                Err(e) => failed_writing::<S, _>(e, look),
            }
        }),
{
    assert(texts(path@).skip(0) =~= texts(path@));
    annotate_at(store, tree_hash, path, 0, patch, Ghost(true))
}

} // verus!
