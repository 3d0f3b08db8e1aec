//! What holds of the trees of a workspace whatever is written to them.
use vstd::prelude::*;

use crate::hash::{hash_text, hex_text, lemma_hash_text_reads_back, lemma_hex_text, sha256};
use crate::store::or_insert;
use crate::text::{lemma_lex_irreflexive, lemma_lex_total, lemma_lex_transitive, lex_lt};
use crate::workspace::handlers::{content, file_written, looked_up, notes_changed, notes_of,
    path_removed, place_of};
use crate::workspace::notes::{annotated, annotated_entry, moved_entry, notes_at, notes_patched,
    patch_stored, NotesPatch};
use crate::workspace::ops::{digest_of, dir_at, dir_entry, empty_tree, entry_fault, entry_named,
    file_entry, prev_name, put, ref_hash, removed, resolved, tree_at, tree_fault, upserted,
    with_entry, without, without_entry, written, FileView, Look, St};
use crate::workspace::{is_segment, EntryView, NodeView, TreeView, MODE_FILE_DEFAULT,
    MODE_FILE_EXEC};

verus! {

/// Whether every entry is as it must be and the names ascend.
pub open spec fn valid_entries(entries: Seq<EntryView>) -> bool {
    forall|i: int|
        0 <= i < entries.len() ==> entry_fault(#[trigger] entries[i], prev_name(entries, i)) is None
}

pub(crate) proof fn lemma_valid(entries: Seq<EntryView>, n: nat)
    requires
        n <= entries.len(),
    ensures
        tree_fault(entries, n) is None <==> forall|i: int|
            0 <= i < n ==> entry_fault(#[trigger] entries[i], prev_name(entries, i)) is None,
    decreases n,
{
    if n > 0 {
        lemma_valid(entries, (n - 1) as nat);
        if tree_fault(entries, n) is None {
            assert forall|i: int| 0 <= i < n implies entry_fault(
                #[trigger] entries[i],
                prev_name(entries, i),
            ) is None by {
                if i == n - 1 {
                }
            }
        }
        if forall|i: int|
            0 <= i < n ==> entry_fault(#[trigger] entries[i], prev_name(entries, i)) is None {
            assert(entry_fault(entries[n - 1], prev_name(entries, n - 1)) is None);
        }
    }
}

proof fn lemma_tail_valid(entries: Seq<EntryView>)
    requires
        valid_entries(entries),
        entries.len() > 0,
    ensures
        valid_entries(entries.drop_first()),
        entries.len() > 1 ==> lex_lt(entries[0].name, entries[1].name),
{
    let rest = entries.drop_first();
    assert forall|i: int| 0 <= i < rest.len() implies entry_fault(
        #[trigger] rest[i],
        prev_name(rest, i),
    ) is None by {
        assert(rest[i] == entries[i + 1]);
        assert(entry_fault(entries[i + 1], prev_name(entries, i + 1)) is None);
        if i > 0 {
            assert(rest[i - 1] == entries[i]);
        }
    }
    if entries.len() > 1 {
        assert(entry_fault(entries[1], prev_name(entries, 1)) is None);
    }
}

proof fn lemma_cons_valid(first: EntryView, rest: Seq<EntryView>)
    requires
        entry_fault(first, None) is None,
        valid_entries(rest),
        rest.len() > 0 ==> lex_lt(first.name, rest[0].name),
    ensures
        valid_entries(seq![first] + rest),
{
    let t = seq![first] + rest;
    assert forall|i: int| 0 <= i < t.len() implies entry_fault(#[trigger] t[i], prev_name(t, i))
        is None by {
        if i > 0 {
            assert(t[i] == rest[i - 1]);
            assert(entry_fault(rest[i - 1], prev_name(rest, i - 1)) is None);
            if i > 1 {
                assert(t[i - 1] == rest[i - 2]);
            }
        }
    }
}

/// A new entry is found under its name, and the others as before.
pub proof fn lemma_upserted_named(entries: Seq<EntryView>, e: EntryView, name: Seq<char>)
    ensures
        entry_named(upserted(entries, e), name) == (if name == e.name {
            Some(e)
        } else {
            entry_named(entries, name)
        }),
    decreases entries.len(),
{
    let t = upserted(entries, e);
    reveal_with_fuel(entry_named, 2);
    if entries.len() == 0 {
        assert(t.drop_first() =~= Seq::empty());
    } else if entries[0].name == e.name {
        assert(t.drop_first() =~= entries.drop_first());
    } else if lex_lt(e.name, entries[0].name) {
        assert(t.drop_first() =~= entries);
    } else {
        assert(t.drop_first() =~= upserted(entries.drop_first(), e));
        assert(t[0] == entries[0]);
        lemma_upserted_named(entries.drop_first(), e, name);
    }
}

/// A valid directory stays valid when a valid entry is put into it.
pub proof fn lemma_upserted_valid(entries: Seq<EntryView>, e: EntryView)
    requires
        valid_entries(entries),
        entry_fault(e, None) is None,
    ensures
        valid_entries(upserted(entries, e)),
        upserted(entries, e).len() > 0,
        upserted(entries, e)[0] == e || (entries.len() > 0 && upserted(entries, e)[0]
            == entries[0]),
    decreases entries.len(),
{
    let t = upserted(entries, e);
    if entries.len() == 0 {
        assert(t =~= seq![e] + Seq::<EntryView>::empty());
        lemma_cons_valid(e, Seq::<EntryView>::empty());
    } else {
        lemma_tail_valid(entries);
        let rest = entries.drop_first();
        assert(entry_fault(entries[0], prev_name(entries, 0)) is None);
        if entries[0].name == e.name {
            if rest.len() > 0 {
                assert(rest[0] == entries[1]);
            }
            lemma_cons_valid(e, rest);
        } else if lex_lt(e.name, entries[0].name) {
            lemma_cons_valid(e, entries);
        } else {
            lemma_upserted_valid(rest, e);
            lemma_lex_total(e.name, entries[0].name);
            let u = upserted(rest, e);
            if rest.len() > 0 {
                assert(rest[0] == entries[1]);
            }
            lemma_cons_valid(entries[0], u);
        }
    }
}

proof fn lemma_later_names(entries: Seq<EntryView>, i: int)
    requires
        valid_entries(entries),
        0 < i < entries.len(),
    ensures
        lex_lt(entries[0].name, entries[i].name),
    decreases i,
{
    assert(entry_fault(entries[i], prev_name(entries, i)) is None);
    if i > 1 {
        lemma_later_names(entries, i - 1);
        lemma_lex_transitive(entries[0].name, entries[i - 1].name, entries[i].name);
    }
}

proof fn lemma_absent(entries: Seq<EntryView>, name: Seq<char>)
    requires
        forall|i: int| 0 <= i < entries.len() ==> (#[trigger] entries[i]).name != name,
    ensures
        entry_named(entries, name) is None,
    decreases entries.len(),
{
    if entries.len() > 0 {
        let rest = entries.drop_first();
        assert forall|i: int| 0 <= i < rest.len() implies (#[trigger] rest[i]).name != name by {
            assert(rest[i] == entries[i + 1]);
        }
        lemma_absent(rest, name);
    }
}

/// A removed entry is not found, and the others are found as before.
pub proof fn lemma_without_named(entries: Seq<EntryView>, gone: Seq<char>, name: Seq<char>)
    requires
        valid_entries(entries),
    ensures
        entry_named(without_entry(entries, gone), name) == (if name == gone {
            None
        } else {
            entry_named(entries, name)
        }),
    decreases entries.len(),
{
    let t = without_entry(entries, gone);
    reveal_with_fuel(entry_named, 2);
    if entries.len() > 0 {
        lemma_tail_valid(entries);
        if entries[0].name == gone {
            if name == gone {
                let rest = entries.drop_first();
                assert forall|i: int| 0 <= i < rest.len() implies (#[trigger] rest[i]).name
                    != name by {
                    assert(rest[i] == entries[i + 1]);
                    lemma_later_names(entries, i + 1);
                    lemma_lex_irreflexive(name);
                }
                lemma_absent(rest, name);
            }
        } else {
            assert(t.drop_first() =~= without_entry(entries.drop_first(), gone));
            assert(t[0] == entries[0]);
            lemma_without_named(entries.drop_first(), gone, name);
        }
    }
}

/// A valid directory stays valid when an entry is taken out of it.
pub proof fn lemma_without_valid(entries: Seq<EntryView>, gone: Seq<char>)
    requires
        valid_entries(entries),
    ensures
        valid_entries(without_entry(entries, gone)),
        without_entry(entries, gone).len() > 0 ==> exists|i: int|
            0 <= i < entries.len() && without_entry(entries, gone)[0] == #[trigger] entries[i],
    decreases entries.len(),
{
    let t = without_entry(entries, gone);
    if entries.len() > 0 {
        lemma_tail_valid(entries);
        let rest = entries.drop_first();
        assert(entry_fault(entries[0], prev_name(entries, 0)) is None);
        if entries[0].name == gone {
            if t.len() > 0 {
                assert(t[0] == entries[1]);
            }
        } else {
            lemma_without_valid(rest, gone);
            let u = without_entry(rest, gone);
            if u.len() > 0 {
                let i = choose|i: int| 0 <= i < rest.len() && u[0] == #[trigger] rest[i];
                assert(u[0] == entries[i + 1]);
                lemma_later_names(entries, i + 1);
            }
            lemma_cons_valid(entries[0], u);
            assert(t[0] == entries[0]);
        }
    }
}

/// Whether everything in one store is in another.
pub open spec fn extends(a: Map<Seq<u8>, NodeView>, b: Map<Seq<u8>, NodeView>) -> bool {
    forall|k: Seq<u8>| #[trigger] a.contains_key(k) ==> b.contains_key(k) && b[k] == a[k]
}

proof fn lemma_put(st: St, v: NodeView)
    ensures
        extends(st.nodes, put(st, v).nodes),
        put(st, v).clean ==> st.clean && put(st, v).nodes.contains_key(digest_of(v)) && put(
            st,
            v,
        ).nodes[digest_of(v)] == v,
{
}

proof fn lemma_tree_at_extends(
    a: Map<Seq<u8>, NodeView>,
    b: Map<Seq<u8>, NodeView>,
    hash: Seq<u8>,
)
    requires
        extends(a, b),
        !(tree_at(a, hash) is Missing),
    ensures
        tree_at(b, hash) == tree_at(a, hash),
{
    assert(a.contains_key(hash));
}

/// What is found at a path is still found when the store holds more.
pub proof fn lemma_resolved_extends(
    a: Map<Seq<u8>, NodeView>,
    b: Map<Seq<u8>, NodeView>,
    root: Seq<u8>,
    path: Seq<Seq<char>>,
)
    requires
        extends(a, b),
        resolved(a, root, path) is Found,
    ensures
        resolved(b, root, path) == resolved(a, root, path),
    decreases path.len(),
{
    if path.len() > 0 {
        lemma_tree_at_extends(a, b, root);
        match tree_at(a, root) {
            Look::Found(t) => {
                match entry_named(t.entries, path[0]) {
                    Some(e) => {
                        if path.len() > 1 && e.kind == "dir"@ {
                            lemma_resolved_extends(a, b, ref_hash(e.hash), path.drop_first());
                        }
                    },
                    None => {},
                }
            },
            _ => {},
        }
    }
}

proof fn lemma_ref_of_hash(h: Seq<u8>)
    ensures
        ref_hash(hash_text(h)) == h,
{
    reveal_strlit("sha256:");
    lemma_hex_text(h);
    assert(hash_text(h).skip(7) =~= hex_text(h));
}

proof fn lemma_dir_entry_valid(name: Seq<char>, existing: Option<EntryView>, child: Seq<u8>)
    requires
        is_segment(name),
    ensures
        entry_fault(dir_entry(name, existing, child), None) is None,
{
    reveal_strlit("file");
    reveal_strlit("dir");
    assert("file"@.len() != "dir"@.len());
}

/// Whether all names on a path can be names.
pub open spec fn is_path(path: Seq<Seq<char>>) -> bool {
    forall|i: int| 0 <= i < path.len() ==> is_segment(#[trigger] path[i])
}

/// Whether a mode is one of a file.
pub open spec fn is_file_mode(mode: u64) -> bool {
    mode == MODE_FILE_DEFAULT || mode == MODE_FILE_EXEC
}

proof fn lemma_found_valid(nodes: Map<Seq<u8>, NodeView>, root: Seq<u8>, t: TreeView)
    requires
        tree_at(nodes, root) == Look::Found(t),
    ensures
        valid_entries(t.entries),
{
    lemma_valid(t.entries, t.entries.len());
}

proof fn lemma_put_tree(st: St, t: TreeView)
    requires
        valid_entries(t.entries),
        put(st, NodeView::Tree(t)).clean,
    ensures
        tree_at(put(st, NodeView::Tree(t)).nodes, digest_of(NodeView::Tree(t))) == Look::Found(t),
{
    lemma_valid(t.entries, t.entries.len());
    lemma_put(st, NodeView::Tree(t));
}

/// A store only grows when a file is written, and where it is clean in the end it was all along.
pub proof fn lemma_write_extends(st: St, root: Seq<u8>, path: Seq<Seq<char>>, file: FileView)
    requires
        written(st, root, path, file) is Found,
    ensures
        extends(st.nodes, written(st, root, path, file)->Found_0.1.nodes),
        written(st, root, path, file)->Found_0.1.clean ==> st.clean,
    decreases path.len(),
{
    let t = tree_at(st.nodes, root)->Found_0;
    let existing = entry_named(t.entries, path[0]);
    if path.len() == 1 {
        lemma_put(st, with_entry(t, file_entry(path[0], existing, file)));
    } else {
        let (child, mid) = match existing {
            Some(e) => (ref_hash(e.hash), st),
            None => (
                digest_of(NodeView::Tree(empty_tree())),
                put(st, NodeView::Tree(empty_tree())),
            ),
        };
        lemma_put(st, NodeView::Tree(empty_tree()));
        lemma_write_extends(mid, child, path.drop_first(), file);
        let (new_child, last) = written(mid, child, path.drop_first(), file)->Found_0;
        lemma_put(last, with_entry(t, dir_entry(path[0], existing, new_child)));
    }
}

/// What was written at a path is found there: the file with its content, size and mode.
pub proof fn lemma_written_is_found(st: St, root: Seq<u8>, path: Seq<Seq<char>>, file: FileView)
    requires
        is_path(path),
        is_file_mode(file.mode),
        written(st, root, path, file) is Found,
        written(st, root, path, file)->Found_0.1.clean,
    ensures
        ({
            let (h, after) = written(st, root, path, file)->Found_0;
            match resolved(after.nodes, h, path) {
                Look::Found(Some(e)) => e.name == path.last() && e.kind == "file"@ && e.hash
                    == file.hash && e.size == file.size && e.mode == file.mode,
                _ => false,
            }
        }),
    decreases path.len(),
{
    let t = tree_at(st.nodes, root)->Found_0;
    lemma_found_valid(st.nodes, root, t);
    let existing = entry_named(t.entries, path[0]);
    assert(is_segment(path[0]));
    if path.len() == 1 {
        let e = file_entry(path[0], existing, file);
        let u = TreeView { entries: upserted(t.entries, e), ..t };
        lemma_upserted_valid(t.entries, e);
        lemma_upserted_named(t.entries, e, path[0]);
        lemma_put_tree(st, u);
    } else {
        let (child, mid) = match existing {
            Some(e) => (ref_hash(e.hash), st),
            None => (
                digest_of(NodeView::Tree(empty_tree())),
                put(st, NodeView::Tree(empty_tree())),
            ),
        };
        let rest = path.drop_first();
        let (new_child, last) = written(mid, child, rest, file)->Found_0;
        let e = dir_entry(path[0], existing, new_child);
        let u = TreeView { entries: upserted(t.entries, e), ..t };
        lemma_put(last, NodeView::Tree(u));
        assert(is_path(rest)) by {
            assert forall|i: int| 0 <= i < rest.len() implies is_segment(#[trigger] rest[i]) by {
                assert(rest[i] == path[i + 1]);
            }
        }
        lemma_written_is_found(mid, child, rest, file);
        lemma_dir_entry_valid(path[0], existing, new_child);
        lemma_upserted_valid(t.entries, e);
        lemma_upserted_named(t.entries, e, path[0]);
        lemma_put_tree(last, u);
        lemma_ref_of_hash(new_child);
        lemma_resolved_extends(last.nodes, put(last, NodeView::Tree(u)).nodes, new_child, rest);
        assert(rest.last() == path.last());
    }
}

/// Whether two paths part ways: neither leads on from the other.
pub open spec fn part_ways(p: Seq<Seq<char>>, q: Seq<Seq<char>>) -> bool
    decreases p.len(),
{
    p.len() > 0 && q.len() > 0 && (p[0] != q[0] || part_ways(p.drop_first(), q.drop_first()))
}

/// A write leaves alone what is at paths that part ways with the one that is written to.
pub proof fn lemma_write_leaves_others(
    st: St,
    root: Seq<u8>,
    path: Seq<Seq<char>>,
    file: FileView,
    other: Seq<Seq<char>>,
)
    requires
        is_path(path),
        is_file_mode(file.mode),
        written(st, root, path, file) is Found,
        written(st, root, path, file)->Found_0.1.clean,
        part_ways(path, other),
        resolved(st.nodes, root, other) is Found,
    ensures
        ({
            let (h, after) = written(st, root, path, file)->Found_0;
            resolved(after.nodes, h, other) == resolved(st.nodes, root, other)
        }),
    decreases path.len(),
{
    let t = tree_at(st.nodes, root)->Found_0;
    let (h, after) = written(st, root, path, file)->Found_0;
    lemma_found_valid(st.nodes, root, t);
    lemma_write_extends(st, root, path, file);
    let existing = entry_named(t.entries, path[0]);
    assert(is_segment(path[0]));
    let (child, mid) = match existing {
        Some(e) => (ref_hash(e.hash), st),
        None => (digest_of(NodeView::Tree(empty_tree())), put(st, NodeView::Tree(empty_tree()))),
    };
    let rest = path.drop_first();
    let (new_child, last) = if path.len() == 1 {
        (child, st)
    } else {
        written(mid, child, rest, file)->Found_0
    };
    let e = if path.len() == 1 {
        file_entry(path[0], existing, file)
    } else {
        dir_entry(path[0], existing, new_child)
    };
    lemma_dir_entry_valid(path[0], existing, new_child);
    let u = TreeView { entries: upserted(t.entries, e), ..t };
    lemma_upserted_valid(t.entries, e);
    lemma_upserted_named(t.entries, e, other[0]);
    lemma_put_tree(last, u);
    lemma_put(last, NodeView::Tree(u));
    if path[0] != other[0] {
        match entry_named(t.entries, other[0]) {
            Some(x) => {
                if other.len() > 1 {
                    lemma_resolved_extends(
                        st.nodes,
                        after.nodes,
                        ref_hash(x.hash),
                        other.drop_first(),
                    );
                }
            },
            None => {},
        }
    } else {
        let tail = other.drop_first();
        assert(part_ways(rest, tail));
        assert(path.len() > 1 && other.len() > 1);
        assert(is_path(rest)) by {
            assert forall|i: int| 0 <= i < rest.len() implies is_segment(#[trigger] rest[i]) by {
                assert(rest[i] == path[i + 1]);
            }
        }
        lemma_put(st, NodeView::Tree(empty_tree()));
        lemma_write_extends(mid, child, rest, file);
        if existing is None {
            assert(mid.clean);
            assert(valid_entries(empty_tree().entries));
            lemma_put_tree(st, empty_tree());
            assert(resolved(mid.nodes, child, tail) == Look::Found(None::<EntryView>));
        }
        lemma_write_leaves_others(mid, child, rest, file, tail);
        lemma_ref_of_hash(new_child);
        lemma_resolved_extends(last.nodes, after.nodes, new_child, tail);
    }
}

/// A store only grows when something is removed, and where it is clean in the end it was all
/// along.
pub proof fn lemma_remove_extends(st: St, root: Seq<u8>, path: Seq<Seq<char>>)
    requires
        removed(st, root, path) is Found,
    ensures
        extends(st.nodes, removed(st, root, path)->Found_0.1.nodes),
        removed(st, root, path)->Found_0.1.clean ==> st.clean,
    decreases path.len(),
{
    let t = tree_at(st.nodes, root)->Found_0;
    let e = entry_named(t.entries, path[0])->0;
    if path.len() == 1 {
        lemma_put(st, without(t, path[0]));
    } else {
        lemma_remove_extends(st, ref_hash(e.hash), path.drop_first());
        let (new_child, last) = removed(st, ref_hash(e.hash), path.drop_first())->Found_0;
        lemma_put(last, with_entry(t, dir_entry(path[0], Some(e), new_child)));
    }
}

/// What was removed is not there any more.
pub proof fn lemma_removed_is_gone(st: St, root: Seq<u8>, path: Seq<Seq<char>>)
    requires
        is_path(path),
        removed(st, root, path) is Found,
        removed(st, root, path)->Found_0.1.clean,
    ensures
        ({
            let (h, after) = removed(st, root, path)->Found_0;
            resolved(after.nodes, h, path) == Look::Found(None::<EntryView>)
        }),
    decreases path.len(),
{
    let t = tree_at(st.nodes, root)->Found_0;
    lemma_found_valid(st.nodes, root, t);
    let e = entry_named(t.entries, path[0])->0;
    assert(is_segment(path[0]));
    if path.len() == 1 {
        let u = TreeView { entries: without_entry(t.entries, path[0]), ..t };
        lemma_without_valid(t.entries, path[0]);
        lemma_without_named(t.entries, path[0], path[0]);
        lemma_put_tree(st, u);
    } else {
        let rest = path.drop_first();
        let (new_child, last) = removed(st, ref_hash(e.hash), rest)->Found_0;
        let d = dir_entry(path[0], Some(e), new_child);
        let u = TreeView { entries: upserted(t.entries, d), ..t };
        lemma_put(last, NodeView::Tree(u));
        assert(is_path(rest)) by {
            assert forall|i: int| 0 <= i < rest.len() implies is_segment(#[trigger] rest[i]) by {
                assert(rest[i] == path[i + 1]);
            }
        }
        lemma_removed_is_gone(st, ref_hash(e.hash), rest);
        lemma_dir_entry_valid(path[0], Some(e), new_child);
        lemma_upserted_valid(t.entries, d);
        lemma_upserted_named(t.entries, d, path[0]);
        lemma_put_tree(last, u);
        lemma_ref_of_hash(new_child);
        lemma_resolved_extends(last.nodes, put(last, NodeView::Tree(u)).nodes, new_child, rest);
    }
}

/// A removal leaves alone what is at paths that part ways with the one that is removed.
#[verifier::rlimit(60)]
pub proof fn lemma_remove_leaves_others(
    st: St,
    root: Seq<u8>,
    path: Seq<Seq<char>>,
    other: Seq<Seq<char>>,
)
    requires
        is_path(path),
        removed(st, root, path) is Found,
        removed(st, root, path)->Found_0.1.clean,
        part_ways(path, other),
        resolved(st.nodes, root, other) is Found,
    ensures
        ({
            let (h, after) = removed(st, root, path)->Found_0;
            resolved(after.nodes, h, other) == resolved(st.nodes, root, other)
        }),
    decreases path.len(),
{
    let t = tree_at(st.nodes, root)->Found_0;
    let (h, after) = removed(st, root, path)->Found_0;
    lemma_found_valid(st.nodes, root, t);
    lemma_remove_extends(st, root, path);
    let e = entry_named(t.entries, path[0])->0;
    assert(is_segment(path[0]));
    let rest = path.drop_first();
    if path.len() == 1 {
        let u = TreeView { entries: without_entry(t.entries, path[0]), ..t };
        lemma_without_valid(t.entries, path[0]);
        lemma_without_named(t.entries, path[0], other[0]);
        lemma_put_tree(st, u);
        assert(!part_ways(rest, other.drop_first()));
        assert(path[0] != other[0]);
        assert(tree_at(after.nodes, h) == Look::Found(u));
        assert(entry_named(u.entries, other[0]) == entry_named(t.entries, other[0]));
    } else {
        let (new_child, last) = removed(st, ref_hash(e.hash), rest)->Found_0;
        let d = dir_entry(path[0], Some(e), new_child);
        let u = TreeView { entries: upserted(t.entries, d), ..t };
        lemma_put(last, NodeView::Tree(u));
        lemma_dir_entry_valid(path[0], Some(e), new_child);
        lemma_upserted_valid(t.entries, d);
        lemma_upserted_named(t.entries, d, other[0]);
        lemma_put_tree(last, u);
        assert(tree_at(after.nodes, h) == Look::Found(u));
        if path[0] == other[0] {
            let tail = other.drop_first();
            assert(part_ways(rest, tail));
            assert(is_path(rest)) by {
                assert forall|i: int| 0 <= i < rest.len() implies is_segment(#[trigger] rest[i]) by {
                    assert(rest[i] == path[i + 1]);
                }
            }
            lemma_remove_leaves_others(st, ref_hash(e.hash), rest, tail);
            lemma_ref_of_hash(new_child);
            lemma_resolved_extends(last.nodes, after.nodes, new_child, tail);
        }
    }
    if path[0] != other[0] {
        match entry_named(t.entries, other[0]) {
            Some(x) => {
                if other.len() > 1 {
                    lemma_resolved_extends(
                        st.nodes,
                        after.nodes,
                        ref_hash(x.hash),
                        other.drop_first(),
                    );
                }
            },
            None => {},
        }
    }
}

proof fn lemma_named_valid(entries: Seq<EntryView>, name: Seq<char>)
    requires
        valid_entries(entries),
    ensures
        entry_named(entries, name) matches Some(e) ==> entry_fault(e, None) is None,
    decreases entries.len(),
{
    if entries.len() > 0 {
        assert(entry_fault(entries[0], prev_name(entries, 0)) is None);
        lemma_tail_valid(entries);
        lemma_named_valid(entries.drop_first(), name);
    }
}

/// What is found at a path is a valid entry.
pub proof fn lemma_resolved_valid(
    nodes: Map<Seq<u8>, NodeView>,
    root: Seq<u8>,
    path: Seq<Seq<char>>,
)
    ensures
        resolved(nodes, root, path) matches Look::Found(Some(e)) ==> entry_fault(e, None) is None,
    decreases path.len(),
{
    if path.len() > 0 {
        match tree_at(nodes, root) {
            Look::Found(t) => {
                lemma_found_valid(nodes, root, t);
                lemma_named_valid(t.entries, path[0]);
                match entry_named(t.entries, path[0]) {
                    Some(e) => {
                        if path.len() > 1 && e.kind == "dir"@ {
                            lemma_resolved_valid(nodes, ref_hash(e.hash), path.drop_first());
                        }
                    },
                    None => {},
                }
            },
            _ => {},
        }
    }
}

/// The bytes that were written to a file are the bytes that are read from it under the new root,
/// unless another blob has their digest.
pub proof fn lemma_written_bytes_are_read(
    nodes: Map<Seq<u8>, NodeView>,
    blobs: Map<Seq<u8>, Seq<u8>>,
    root: Seq<char>,
    path: Seq<char>,
    bytes: Seq<u8>,
    mode: Option<u64>,
)
    requires
        file_written(nodes, root, path, bytes, mode) is Found,
        file_written(nodes, root, path, bytes, mode)->Found_0.1.clean,
        file_written(nodes, root, path, bytes, mode)->Found_0.0.len() == 32,
        or_insert(blobs, sha256(bytes), bytes)[sha256(bytes)] == bytes,
    ensures
        ({
            let (h, after) = file_written(nodes, root, path, bytes, mode)->Found_0;
            content(
                after.nodes,
                or_insert(blobs, sha256(bytes), bytes),
                hash_text(h),
                path,
                None,
            ) == Look::Found(bytes)
        }),
{
    let (h, after) = file_written(nodes, root, path, bytes, mode)->Found_0;
    let (r, p) = place_of(root, Some(path))->Found_0;
    let existing = looked_up(nodes, root, path)->Found_0;
    lemma_resolved_valid(nodes, r, p);
    let m = crate::workspace::ops::file_mode(existing, mode)->0;
    assert(is_file_mode(m)) by {
        reveal_strlit("file");
        reveal_strlit("dir");
    }
    let file = FileView { hash: hash_text(sha256(bytes)), size: bytes.len() as u64, mode: m };
    assert(is_path(p));
    lemma_written_is_found(St { nodes, clean: true }, r, p, file);
    lemma_hash_text_reads_back(h);
    lemma_ref_of_hash(h);
    lemma_ref_of_hash(sha256(bytes));
    assert(place_of(hash_text(h), Some(path)) == Look::Found((h, p)));
}

/// What was removed cannot be looked up under the new root.
pub proof fn lemma_removed_path_is_gone(
    nodes: Map<Seq<u8>, NodeView>,
    root: Seq<char>,
    path: Seq<char>,
)
    requires
        path_removed(nodes, root, path) is Found,
        path_removed(nodes, root, path)->Found_0.1.clean,
        path_removed(nodes, root, path)->Found_0.0.len() == 32,
    ensures
        ({
            let (h, after) = path_removed(nodes, root, path)->Found_0;
            looked_up(after.nodes, hash_text(h), path) == Look::Found(None::<EntryView>)
        }),
{
    let (h, after) = path_removed(nodes, root, path)->Found_0;
    let (r, p) = place_of(root, Some(path))->Found_0;
    assert(is_path(p));
    lemma_removed_is_gone(St { nodes, clean: true }, r, p);
    lemma_hash_text_reads_back(h);
    lemma_ref_of_hash(h);
    assert(place_of(hash_text(h), Some(path)) == Look::Found((h, p)));
}

/// The reference to the notes at a path: in the entry of a file, and in a directory itself.
pub open spec fn note_ref(
    nodes: Map<Seq<u8>, NodeView>,
    root: Seq<u8>,
    path: Seq<Seq<char>>,
) -> Option<Seq<char>>
    decreases path.len(),
{
    match tree_at(nodes, root) {
        Look::Found(t) => if path.len() == 0 {
            t.annotations
        } else {
            match entry_named(t.entries, path[0]) {
                None => None,
                Some(e) => if path.len() == 1 && e.kind == "file"@ {
                    e.annotations
                } else {
                    note_ref(nodes, ref_hash(e.hash), path.drop_first())
                },
            }
        },
        _ => None,
    }
}

proof fn lemma_note_ref_extends(
    a: Map<Seq<u8>, NodeView>,
    b: Map<Seq<u8>, NodeView>,
    root: Seq<u8>,
    path: Seq<Seq<char>>,
)
    requires
        extends(a, b),
        note_ref(a, root, path) is Some,
    ensures
        note_ref(b, root, path) == note_ref(a, root, path),
    decreases path.len(),
{
    lemma_tree_at_extends(a, b, root);
    if path.len() > 0 {
        let e = entry_named(tree_at(a, root)->Found_0.entries, path[0])->0;
        if !(path.len() == 1 && e.kind == "file"@) {
            lemma_note_ref_extends(a, b, ref_hash(e.hash), path.drop_first());
        }
    }
}

proof fn lemma_patch_stored(st: St, current: Option<Seq<char>>, patch: NotesPatch)
    requires
        patch_stored(st, current, patch) is Found,
        patch_stored(st, current, patch)->Found_0.1.clean,
    ensures
        ({
            let (notes, after) = patch_stored(st, current, patch)->Found_0;
            &&& extends(st.nodes, after.nodes)
            &&& st.clean
            &&& notes_at(st.nodes, current) matches Look::Found(n) && notes_at(
                after.nodes,
                Some(notes),
            ) == Look::Found(
                Some(
                    notes_patched(
                        if n is Some {
                            n->0
                        } else {
                            Seq::empty()
                        },
                        patch,
                        patch.len(),
                    ),
                ),
            )
        }),
{
    let n = notes_at(st.nodes, current)->Found_0;
    let start = match n {
        Some(x) => x,
        None => Seq::empty(),
    };
    let node = NodeView::Annotations(notes_patched(start, patch, patch.len()));
    lemma_put(st, node);
    lemma_ref_of_hash(digest_of(node));
}

proof fn lemma_named_has_its_name(entries: Seq<EntryView>, name: Seq<char>)
    ensures
        entry_named(entries, name) matches Some(e) ==> e.name == name,
    decreases entries.len(),
{
    if entries.len() > 0 {
        lemma_named_has_its_name(entries.drop_first(), name);
    }
}

/// Notes that were changed at a path are found there: the reference in the new tree is the one that
/// was returned, and under it are the old notes of that path with the changes made to them.
pub proof fn lemma_changed_notes_are_found(
    st: St,
    root: Seq<u8>,
    path: Seq<Seq<char>>,
    patch: NotesPatch,
)
    requires
        annotated(st, root, path, patch) is Found,
        annotated(st, root, path, patch)->Found_0.2.clean,
    ensures
        ({
            let (h, notes, after) = annotated(st, root, path, patch)->Found_0;
            &&& extends(st.nodes, after.nodes)
            &&& note_ref(after.nodes, h, path) == Some(notes)
            &&& notes_at(st.nodes, note_ref(st.nodes, root, path)) matches Look::Found(n)
                && notes_at(after.nodes, Some(notes)) == Look::Found(
                Some(
                    notes_patched(
                        if n is Some {
                            n->0
                        } else {
                            Seq::empty()
                        },
                        patch,
                        patch.len(),
                    ),
                ),
            )
        }),
    decreases path.len(),
{
    reveal_strlit("file");
    reveal_strlit("dir");
    assert("file"@.len() != "dir"@.len());
    let t = tree_at(st.nodes, root)->Found_0;
    lemma_found_valid(st.nodes, root, t);
    let (h, notes, after) = annotated(st, root, path, patch)->Found_0;
    if path.len() == 0 {
        let mid = patch_stored(st, t.annotations, patch)->Found_0.1;
        let u = TreeView { annotations: Some(notes), ..t };
        lemma_put(mid, NodeView::Tree(u));
        lemma_put_tree(mid, u);
        lemma_patch_stored(st, t.annotations, patch);
    } else {
        let e = entry_named(t.entries, path[0])->0;
        lemma_named_valid(t.entries, path[0]);
        lemma_named_has_its_name(t.entries, path[0]);
        if path.len() == 1 && e.kind == "file"@ {
            let mid = patch_stored(st, e.annotations, patch)->Found_0.1;
            let x = annotated_entry(e, notes);
            let u = TreeView { entries: upserted(t.entries, x), ..t };
            lemma_put(mid, NodeView::Tree(u));
            lemma_patch_stored(st, e.annotations, patch);
            lemma_upserted_valid(t.entries, x);
            lemma_upserted_named(t.entries, x, path[0]);
            lemma_put_tree(mid, u);
        } else {
            let rest = path.drop_first();
            let (child, _, mid) = annotated(st, ref_hash(e.hash), rest, patch)->Found_0;
            let x = moved_entry(e, child);
            let u = TreeView { entries: upserted(t.entries, x), ..t };
            lemma_put(mid, NodeView::Tree(u));
            lemma_changed_notes_are_found(st, ref_hash(e.hash), rest, patch);
            lemma_upserted_valid(t.entries, x);
            lemma_upserted_named(t.entries, x, path[0]);
            lemma_put_tree(mid, u);
            lemma_ref_of_hash(child);
            lemma_note_ref_extends(mid.nodes, after.nodes, child, rest);
        }
    }
}

proof fn lemma_note_ref_at(
    nodes: Map<Seq<u8>, NodeView>,
    root: Seq<u8>,
    p: Seq<Seq<char>>,
    parent: Seq<u8>,
    t: TreeView,
    e: EntryView,
)
    requires
        p.len() > 0,
        dir_at(nodes, root, p.drop_last()) == Look::Found(parent),
        tree_at(nodes, parent) == Look::Found(t),
        entry_named(t.entries, p.last()) == Some(e),
    ensures
        e.kind == "file"@ ==> note_ref(nodes, root, p) == e.annotations,
        e.kind == "dir"@ ==> (tree_at(nodes, ref_hash(e.hash)) matches Look::Found(c) ==> note_ref(
            nodes,
            root,
            p,
        ) == c.annotations),
    decreases p.len(),
{
    reveal_strlit("file");
    reveal_strlit("dir");
    assert("file"@.len() != "dir"@.len());
    if p.len() > 1 {
        let rest = p.drop_first();
        assert(p.drop_last().drop_first() =~= rest.drop_last());
        assert(p.drop_last()[0] == p[0]);
        let top = tree_at(nodes, root)->Found_0;
        let f = entry_named(top.entries, p[0])->0;
        lemma_note_ref_at(nodes, ref_hash(f.hash), rest, parent, t, e);
    } else {
        reveal_with_fuel(note_ref, 2);
        assert(p.drop_first() =~= Seq::empty());
        assert(p.last() == p[0]);
    }
}

/// The notes at a path are those that the tree has there: of the directory itself, or of the file.
pub proof fn lemma_notes_are_those_at_the_path(
    nodes: Map<Seq<u8>, NodeView>,
    root: Seq<char>,
    path: Option<Seq<char>>,
)
    ensures
        notes_of(nodes, root, path) matches Look::Found(n) ==> (place_of(
            root,
            path,
        ) matches Look::Found((h, p)) && notes_at(nodes, note_ref(nodes, h, p)) == Look::Found(n)),
{
    if let Look::Found(n) = notes_of(nodes, root, path) {
        let (h, p) = place_of(root, path)->Found_0;
        if p.len() > 0 {
            let parent = dir_at(nodes, h, p.drop_last())->Found_0;
            let t = tree_at(nodes, parent)->Found_0;
            let e = entry_named(t.entries, p.last())->0;
            lemma_note_ref_at(nodes, h, p, parent, t, e);
        }
    }
}

/// Notes that are changed at a path are found there afterwards, below the new root: what was there,
/// changed as the patch says.
pub proof fn lemma_changed_notes_are_at_the_path(
    nodes: Map<Seq<u8>, NodeView>,
    root: Seq<char>,
    path: Option<Seq<char>>,
    patch: NotesPatch,
)
    requires
        notes_changed(nodes, root, path, patch) is Found,
        notes_changed(nodes, root, path, patch)->Found_0.2.clean,
    ensures
        ({
            let (new_root, notes, after) = notes_changed(nodes, root, path, patch)->Found_0;
            &&& place_of(root, path) matches Look::Found((h, p))
            &&& extends(nodes, after.nodes)
            &&& note_ref(after.nodes, new_root, p) == Some(notes)
            &&& notes_at(nodes, note_ref(nodes, h, p)) matches Look::Found(n)
            &&& notes_at(after.nodes, Some(notes)) == Look::Found(
                Some(
                    notes_patched(
                        if n is Some {
                            n->0
                        } else {
                            Seq::empty()
                        },
                        patch,
                        patch.len(),
                    ),
                ),
            )
        }),
{
    let (h, p) = place_of(root, path)->Found_0;
    lemma_changed_notes_are_found(St { nodes, clean: true }, h, p, patch);
}

} // verus!
