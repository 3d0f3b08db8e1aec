//! What trees, listings, differences and notes come to, entry by entry.
use vstd::prelude::*;

use crate::hash::is_hash_text;
use crate::text::{lemma_lex_irreflexive, lemma_lex_total, lemma_lex_transitive, lex_lt};

use super::handlers::{both_sides, part_of, tells_version, version_root, WorkspaceCommitMeta,
    WorkspaceHistory, WorkspaceReadBytesRange, WorkspaceResolveReceipt, MAX_DEPTH};
use super::list::{after_cursor, change_at, found_at, is_page, lemma_after_cursor, listed,
    path_order, subtree, subtree_of, ChangeView, PathEntry, WorkspaceListReceipt};
use super::notes::{lemma_note_set, note_at, note_dropped, note_set, notes_patched, NotesPatch};
use super::ops::{empty_tree, entry_fault, file_mode, prev_name, ref_hash, tree_at, tree_fault,
    Look};
use super::{joined, lemma_join_parts, lemma_parts_join, lemma_slash_at, parts, path_segments,
    path_under, slash_at, EntryView, NodeView, NotesView, TreeView};

verus! {

/// Whether a text can name a file or a directory: it is not empty, is neither the directory itself
/// nor the one above, and is made of letters, digits and a few signs.
pub open spec fn is_plain_name(s: Seq<char>) -> bool {
    &&& s.len() > 0
    &&& !(s.len() == 1 && s[0] == '.')
    &&& !(s.len() == 2 && s[0] == '.' && s[1] == '.')
    &&& forall|i: int|
        0 <= i < s.len() ==> {
            let c = #[trigger] s[i];
            ('a' <= c && c <= 'z') || ('A' <= c && c <= 'Z') || ('0' <= c && c <= '9') || c == '.'
                || c == '_' || c == '~' || c == '-'
        }
}

/// A name is accepted if and only if it is a plain one.
pub proof fn lemma_plain_names(s: Seq<char>)
    ensures
        super::is_segment(s) <==> is_plain_name(s),
        super::is_workspace_name(s) ==> s.len() > 0 && forall|i: int|
            0 <= i < s.len() ==> #[trigger] s[i] != '/',
{
    reveal_strlit(".");
    reveal_strlit("..");
    if super::is_workspace_name(s) {
        assert forall|i: int| 0 <= i < s.len() implies #[trigger] s[i] != '/' by {
            assert(super::url_safe(s[i]));
        }
    }
    if is_plain_name(s) {
        assert forall|i: int| 0 <= i < s.len() implies super::url_safe(#[trigger] s[i]) by {}
        if s == "."@ {
            assert(s.len() == 1 && s[0] == '.');
        }
        if s == ".."@ {
            assert(s.len() == 2 && s[0] == '.' && s[1] == '.');
        }
    }
    if super::is_segment(s) {
        assert forall|i: int| 0 <= i < s.len() implies {
            let c = #[trigger] s[i];
            ('a' <= c && c <= 'z') || ('A' <= c && c <= 'Z') || ('0' <= c && c <= '9') || c == '.'
                || c == '_' || c == '~' || c == '-'
        } by {
            assert(super::url_safe(s[i]));
        }
        if s.len() == 1 && s[0] == '.' {
            assert(s =~= "."@);
        }
        if s.len() == 2 && s[0] == '.' && s[1] == '.' {
            assert(s =~= ".."@);
        }
    }
}

proof fn lemma_parts_end(s: Seq<char>)
    requires
        s.len() > 0,
        s.last() == '/',
    ensures
        parts(s).len() > 0,
        parts(s).last().len() == 0,
    decreases s.len(),
{
    lemma_slash_at(s);
    let i = slash_at(s);
    assert(s[s.len() - 1] == '/');
    let rest = s.skip(i + 1);
    if rest.len() > 0 {
        assert(rest.last() == s.last());
        lemma_parts_end(rest);
        assert((seq![s.take(i)] + parts(rest)).last() == parts(rest).last());
    } else {
        lemma_slash_at(rest);
        assert(parts(rest) =~= seq![rest]);
        assert((seq![s.take(i)] + parts(rest)).last() == rest);
    }
}

/// A path is accepted if and only if it is plain names with a slash between each two of them, and
/// those are the names that it is split into.
pub proof fn lemma_path_is_plain_names(path: Seq<char>, names: Seq<Seq<char>>)
    requires
        names.len() > 0,
        forall|i: int| 0 <= i < names.len() ==> is_plain_name(#[trigger] names[i]),
    ensures
        joined(names) == path <==> path_segments(path) == Ok::<Seq<Seq<char>>, Seq<char>>(names),
{
    assert forall|i: int| 0 <= i < names.len() implies super::is_segment(#[trigger] names[i]) by {
        lemma_plain_names(names[i]);
    }
    if joined(names) == path {
        lemma_join_parts(names);
        assert(is_plain_name(names[0]));
        assert(is_plain_name(names[names.len() - 1]));
        lemma_slash_at(path);
        if path.len() == 0 {
            assert(parts(path) =~= seq![path]);
            assert(names[0] == path);
        } else if path[0] == '/' {
            assert(slash_at(path) == 0);
            assert(parts(path)[0] =~= path.take(0));
        } else if path.last() == '/' {
            lemma_parts_end(path);
        }
    }
    lemma_parts_join(path);
}

/// A directory is as it must be if and only if its names are plain and ascend, each file has one of
/// the two modes of files, each directory the mode of directories and no size, and nothing else is
/// in it.
pub proof fn lemma_directory_is_in_order(entries: Seq<EntryView>)
    ensures
        tree_fault(entries, entries.len()) is None <==> {
            &&& forall|i: int|
                0 <= i < entries.len() ==> {
                    let e = #[trigger] entries[i];
                    &&& is_plain_name(e.name)
                    &&& e.kind == "file"@ || e.kind == "dir"@
                    &&& e.kind == "file"@ ==> e.mode == 0o644 || e.mode == 0o755
                    &&& e.kind == "dir"@ ==> e.mode == 0o755 && e.size == 0
                }
            &&& forall|i: int, j: int|
                0 <= i < j < entries.len() ==> lex_lt(
                    (#[trigger] entries[i]).name,
                    (#[trigger] entries[j]).name,
                )
        },
{
    reveal_strlit("file");
    reveal_strlit("dir");
    assert("file"@.len() == 4 && "dir"@.len() == 3);
    super::laws::lemma_valid(entries, entries.len());
    if tree_fault(entries, entries.len()) is None {
        assert forall|i: int| 0 <= i < entries.len() implies {
            let e = #[trigger] entries[i];
            &&& is_plain_name(e.name)
            &&& e.kind == "file"@ || e.kind == "dir"@
            &&& e.kind == "file"@ ==> e.mode == 0o644 || e.mode == 0o755
            &&& e.kind == "dir"@ ==> e.mode == 0o755 && e.size == 0
        } by {
            assert(entry_fault(entries[i], prev_name(entries, i)) is None);
            lemma_plain_names(entries[i].name);
        }
        assert forall|i: int, j: int| 0 <= i < j < entries.len() implies lex_lt(
            (#[trigger] entries[i]).name,
            (#[trigger] entries[j]).name,
        ) by {
            lemma_ascends(entries, i, j);
        }
    }
    if (forall|i: int|
        0 <= i < entries.len() ==> {
            let e = #[trigger] entries[i];
            &&& is_plain_name(e.name)
            &&& e.kind == "file"@ || e.kind == "dir"@
            &&& e.kind == "file"@ ==> e.mode == 0o644 || e.mode == 0o755
            &&& e.kind == "dir"@ ==> e.mode == 0o755 && e.size == 0
        }) && (forall|i: int, j: int|
        0 <= i < j < entries.len() ==> lex_lt(
            (#[trigger] entries[i]).name,
            (#[trigger] entries[j]).name,
        )) {
        assert forall|i: int| 0 <= i < entries.len() implies entry_fault(
            #[trigger] entries[i],
            prev_name(entries, i),
        ) is None by {
            lemma_plain_names(entries[i].name);
            if i > 0 {
                assert(lex_lt(entries[i - 1].name, entries[i].name));
            }
        }
    }
}

proof fn lemma_ascends(entries: Seq<EntryView>, i: int, j: int)
    requires
        forall|k: int|
            0 <= k < entries.len() ==> entry_fault(#[trigger] entries[k], prev_name(entries, k)) is None,
        0 <= i < j < entries.len(),
    ensures
        lex_lt(entries[i].name, entries[j].name),
    decreases j,
{
    assert(entry_fault(entries[j], prev_name(entries, j)) is None);
    if i < j - 1 {
        lemma_ascends(entries, i, j - 1);
        lemma_lex_transitive(entries[i].name, entries[j - 1].name, entries[j].name);
    }
}

/// A new workspace has nothing in it.
pub proof fn lemma_new_workspace_is_empty()
    ensures
        empty_tree().entries.len() == 0,
        empty_tree().annotations is None,
{
}

/// The mode of a file is the one that is asked for, which must be one of the two; where none is
/// asked for, that of the file that is there, or the ordinary one.
pub proof fn lemma_mode_of_a_file(existing: Option<EntryView>, requested: Option<u64>)
    ensures
        requested matches Some(m) ==> file_mode(existing, requested) == if m == 0o644 || m
            == 0o755 {
            Some(m)
        } else {
            None
        },
        requested is None ==> file_mode(existing, requested) == if existing is Some
            && existing->0.kind == "file"@ {
            Some(existing->0.mode)
        } else {
            Some(0o644)
        },
{
}

/// A listing of a directory holds each of its entries once, under its path, in their order.
pub proof fn lemma_directory_is_listed(t: TreeView, base: Seq<char>)
    ensures
        listed(t, base).len() == t.entries.len(),
        forall|i: int|
            0 <= i < t.entries.len() ==> (#[trigger] listed(t, base)[i]).1 == t.entries[i]
                && listed(t, base)[i].0 == if base.len() == 0 {
                t.entries[i].name
            } else {
                base + "/"@ + t.entries[i].name
            },
{
}

/// A listing of a whole tree holds the entries of the directory under their paths, and whatever the
/// listings of the directories in it hold, and nothing else.
pub proof fn lemma_tree_is_listed(
    nodes: Map<Seq<u8>, NodeView>,
    root: Seq<u8>,
    base: Seq<char>,
    depth: nat,
    x: PathEntry,
)
    requires
        depth > 0,
        subtree(nodes, root, base, depth) is Found,
    ensures
        tree_at(nodes, root) is Found,
        ({
            let entries = tree_at(nodes, root)->Found_0.entries;
            subtree(nodes, root, base, depth)->Found_0.contains(x) <==> exists|i: int|
                0 <= i < entries.len() && {
                    let e = #[trigger] entries[i];
                    ||| x == (path_under(base, e.name), e)
                    ||| e.kind == "dir"@ && subtree(
                        nodes,
                        ref_hash(e.hash),
                        path_under(base, e.name),
                        (depth - 1) as nat,
                    )->Found_0.contains(x)
                }
        }),
{
    let entries = tree_at(nodes, root)->Found_0.entries;
    lemma_entries_listed(nodes, entries, base, depth, entries.len(), x);
}

proof fn lemma_entries_listed(
    nodes: Map<Seq<u8>, NodeView>,
    entries: Seq<EntryView>,
    base: Seq<char>,
    depth: nat,
    n: nat,
    x: PathEntry,
)
    requires
        depth > 0,
        n <= entries.len(),
        subtree_of(nodes, entries, base, depth, n) is Found,
    ensures
        subtree_of(nodes, entries, base, depth, n)->Found_0.contains(x) <==> exists|i: int|
            0 <= i < n && {
                let e = #[trigger] entries[i];
                ||| x == (path_under(base, e.name), e)
                ||| e.kind == "dir"@ && subtree(
                    nodes,
                    ref_hash(e.hash),
                    path_under(base, e.name),
                    (depth - 1) as nat,
                )->Found_0.contains(x)
            },
    decreases n,
{
    if n > 0 {
        lemma_entries_listed(nodes, entries, base, depth, (n - 1) as nat, x);
        let done = subtree_of(nodes, entries, base, depth, (n - 1) as nat)->Found_0;
        let e = entries[n - 1];
        let path = path_under(base, e.name);
        let own = done.push((path, e));
        assert(own.contains(x) <==> done.contains(x) || x == (path, e)) by {
            if own.contains(x) {
                let i = choose|i: int| 0 <= i < own.len() && own[i] == x;
                if i < done.len() {
                    assert(done[i] == x);
                }
            }
            if done.contains(x) {
                let i = choose|i: int| 0 <= i < done.len() && done[i] == x;
                assert(own[i] == x);
            }
            assert(own[done.len() as int] == (path, e));
        }
        if e.kind == "dir"@ {
            let below = subtree(nodes, ref_hash(e.hash), path, (depth - 1) as nat)->Found_0;
            let all = own + below;
            assert(all.contains(x) <==> own.contains(x) || below.contains(x)) by {
                if all.contains(x) {
                    let i = choose|i: int| 0 <= i < all.len() && all[i] == x;
                    if i < own.len() {
                        assert(own[i] == x);
                    } else {
                        assert(below[i - own.len()] == x);
                    }
                }
                if own.contains(x) {
                    let i = choose|i: int| 0 <= i < own.len() && own[i] == x;
                    assert(all[i] == x);
                }
                if below.contains(x) {
                    let i = choose|i: int| 0 <= i < below.len() && below[i] == x;
                    assert(all[i + own.len()] == x);
                }
            }
        }
    } else {
        assert(!Seq::<PathEntry>::empty().contains(x));
    }
}

proof fn lemma_cursor_splits(s: Seq<PathEntry>, c: Seq<char>)
    ensures
        forall|i: int| 0 <= i < after_cursor(s, Some(c)) ==> !lex_lt(c, (#[trigger] s[i]).0),
        after_cursor(s, Some(c)) < s.len() ==> lex_lt(c, s[after_cursor(s, Some(c))].0),
    decreases s.len(),
{
    if s.len() > 0 && !lex_lt(c, s[0].0) {
        lemma_cursor_splits(s.drop_first(), c);
        lemma_after_cursor(s.drop_first(), Some(c));
        assert forall|i: int| 0 <= i < after_cursor(s, Some(c)) implies !lex_lt(
            c,
            (#[trigger] s[i]).0,
        ) by {
            if i > 0 {
                assert(s.drop_first()[i - 1] == s[i]);
            }
        }
    }
}

/// A page holds entries that come after the cursor and leaves out none before its last one. It
/// holds no more than the limit, where there is one, and fewer only where nothing is left. It has a
/// cursor, the path of its last entry, if and only if something is left.
pub proof fn lemma_page_is_limited(
    r: WorkspaceListReceipt,
    all: Seq<PathEntry>,
    cursor: Option<Seq<char>>,
    limit: u64,
)
    requires
        is_page(r, all, cursor, limit),
        path_order(all),
    ensures
        ({
            let n = r.entries@.len();
            exists|start: int|
                #![trigger all.skip(start)]
                {
                    &&& 0 <= start <= all.len() && start + n <= all.len()
                    &&& forall|i: int| 0 <= i < n ==> (#[trigger] r.entries@[i]).path@ == all[start + i].0
                    &&& cursor is None ==> start == 0
                    &&& cursor matches Some(c) ==> forall|i: int|
                        0 <= i < all.len() ==> (lex_lt(c, (#[trigger] all[i]).0) <==> i >= start)
                    &&& limit > 0 ==> n <= limit
                    &&& n < limit || limit == 0 ==> start + n == all.len()
                    &&& r.next_cursor is Some <==> start + n < all.len()
                    &&& r.next_cursor matches Some(c) ==> n > 0 && c@ == all[start + n - 1].0
                }
        }),
{
    let start = after_cursor(all, cursor);
    lemma_after_cursor(all, cursor);
    if let Some(c) = cursor {
        lemma_cursor_splits(all, c);
        assert forall|i: int| 0 <= i < all.len() implies (lex_lt(c, (#[trigger] all[i]).0) <==> i
            >= start) by {
            if i > start {
                assert(!lex_lt(all[i].0, all[start].0));
                lemma_lex_total(all[start].0, all[i].0);
                if all[start].0 != all[i].0 {
                    lemma_lex_transitive(c, all[start].0, all[i].0);
                }
            }
        }
    }
    assert(all.skip(start) == all.skip(start));
    assert forall|i: int| 0 <= i < r.entries@.len() implies (#[trigger] r.entries@[i]).path@
        == all[start + i].0 by {
        assert(super::list::lists(r.entries@[i], all[start + i]));
    }
}

/// Whether an entry is listed at a path, and the last one there.
pub open spec fn is_at(s: Seq<PathEntry>, path: Seq<char>, e: EntryView) -> bool {
    exists|k: int|
        0 <= k < s.len() && #[trigger] s[k] == (path, e) && forall|j: int|
            k < j < s.len() ==> (#[trigger] s[j]).0 != path
}

/// Whether nothing is listed at a path.
pub open spec fn is_bare(s: Seq<PathEntry>, path: Seq<char>) -> bool {
    forall|i: int| 0 <= i < s.len() ==> (#[trigger] s[i]).0 != path
}

proof fn lemma_found_is_at(s: Seq<PathEntry>, path: Seq<char>)
    ensures
        match found_at(s, path) {
            Some(e) => is_at(s, path, e) && forall|f: EntryView| #[trigger]
                is_at(s, path, f) ==> f == e,
            None => is_bare(s, path) && forall|f: EntryView| !#[trigger] is_at(s, path, f),
        },
    decreases s.len(),
{
    if s.len() > 0 {
        let front = s.drop_last();
        lemma_found_is_at(front, path);
        if s.last().0 == path {
            assert(s[s.len() - 1] == (path, s.last().1));
        } else {
            assert forall|f: EntryView| is_at(s, path, f) <==> #[trigger] is_at(front, path, f) by {
                if is_at(s, path, f) {
                    let k = choose|k: int|
                        0 <= k < s.len() && #[trigger] s[k] == (path, f) && forall|j: int|
                            k < j < s.len() ==> (#[trigger] s[j]).0 != path;
                    assert(front[k] == (path, f));
                    assert forall|j: int| k < j < front.len() implies (#[trigger] front[j]).0
                        != path by {
                        assert(front[j] == s[j]);
                    }
                }
                if is_at(front, path, f) {
                    let k = choose|k: int|
                        0 <= k < front.len() && #[trigger] front[k] == (path, f) && forall|j: int|
                            k < j < front.len() ==> (#[trigger] front[j]).0 != path;
                    assert(s[k] == (path, f));
                    assert forall|j: int| k < j < s.len() implies (#[trigger] s[j]).0 != path by {
                        if j < front.len() {
                            assert(front[j] == s[j]);
                        }
                    }
                }
            }
            if found_at(s, path) is None {
                assert forall|i: int| 0 <= i < s.len() implies (#[trigger] s[i]).0 != path by {
                    if i < front.len() {
                        assert(front[i] == s[i]);
                    }
                }
            }
            if let Some(e) = found_at(s, path) {
                assert(is_at(front, path, e));
                assert forall|f: EntryView| #[trigger] is_at(s, path, f) implies f == e by {
                    assert(is_at(front, path, f));
                }
            }
            assert forall|f: EntryView| found_at(s, path) is None implies !#[trigger] is_at(
                s,
                path,
                f,
            ) by {
                assert(!is_at(front, path, f));
            }
        }
    }
}

/// Two trees differ at a path where only one of them has something there, or where what they have
/// differs in kind, content or notes; a difference in size or mode alone is none. What was there is
/// told by its old content, and what is there by its new one.
pub proof fn lemma_difference_at_a_path(
    a: Seq<PathEntry>,
    b: Seq<PathEntry>,
    path: Seq<char>,
    x: EntryView,
    y: EntryView,
)
    ensures
        is_bare(a, path) && is_bare(b, path) ==> change_at(a, b, path) is None,
        is_at(a, path, x) && is_bare(b, path) ==> change_at(a, b, path) == Some(
            ChangeView { path, kind: x.kind, old_hash: Some(x.hash), new_hash: None },
        ),
        is_bare(a, path) && is_at(b, path, y) ==> change_at(a, b, path) == Some(
            ChangeView { path, kind: y.kind, old_hash: None, new_hash: Some(y.hash) },
        ),
        is_at(a, path, x) && is_at(b, path, y) ==> change_at(a, b, path) == if x.kind != y.kind
            || x.hash != y.hash || x.annotations != y.annotations {
            Some(
                ChangeView {
                    path,
                    kind: y.kind,
                    old_hash: Some(x.hash),
                    new_hash: Some(y.hash),
                },
            )
        } else {
            None
        },
{
    lemma_found_is_at(a, path);
    lemma_found_is_at(b, path);
}

/// Whether notes are in the order of their keys, each of which occurs once.
pub open spec fn keys_ascend(n: NotesView) -> bool {
    forall|i: int, j: int| 0 <= i < j < n.len() ==> lex_lt((#[trigger] n[i]).0, (#[trigger] n[j]).0)
}

proof fn lemma_tail_ascends(n: NotesView)
    requires
        keys_ascend(n),
        n.len() > 0,
    ensures
        keys_ascend(n.drop_first()),
{
    let t = n.drop_first();
    assert forall|i: int, j: int| 0 <= i < j < t.len() implies lex_lt(
        (#[trigger] t[i]).0,
        (#[trigger] t[j]).0,
    ) by {
        assert(t[i] == n[i + 1] && t[j] == n[j + 1]);
    }
}

proof fn lemma_no_note(n: NotesView, key: Seq<char>)
    requires
        forall|i: int| 0 <= i < n.len() ==> (#[trigger] n[i]).0 != key,
    ensures
        note_at(n, key) is None,
    decreases n.len(),
{
    if n.len() > 0 {
        let t = n.drop_first();
        assert forall|i: int| 0 <= i < t.len() implies (#[trigger] t[i]).0 != key by {
            assert(t[i] == n[i + 1]);
        }
        lemma_no_note(t, key);
    }
}

/// The keys of notes with one set, or without one, are among the old ones and the new one.
proof fn lemma_keys_after(n: NotesView, key: Seq<char>, hash: Seq<char>)
    requires
        keys_ascend(n),
    ensures
        keys_ascend(note_set(n, key, hash)),
        keys_ascend(note_dropped(n, key)),
        forall|i: int|
            0 <= i < note_set(n, key, hash).len() ==> (#[trigger] note_set(n, key, hash)[i]).0 == key
                || exists|j: int|
                0 <= j < n.len() && (#[trigger] n[j]).0 == note_set(n, key, hash)[i].0,
        forall|i: int|
            0 <= i < note_dropped(n, key).len() ==> exists|j: int|
                0 <= j < n.len() && (#[trigger] n[j]).0 == (#[trigger] note_dropped(n, key)[i]).0,
    decreases n.len(),
{
    let s = note_set(n, key, hash);
    let d = note_dropped(n, key);
    if n.len() > 0 {
        let t = n.drop_first();
        lemma_tail_ascends(n);
        lemma_keys_after(t, key, hash);
        assert forall|j: int| 0 <= j < t.len() implies lex_lt(n[0].0, (#[trigger] t[j]).0) by {
            assert(t[j] == n[j + 1]);
        }
        // What was set.
        if n[0].0 == key {
            assert forall|i: int| 0 <= i < s.len() implies (#[trigger] s[i]).0 == n[i].0 by {}
        } else if lex_lt(key, n[0].0) {
            assert forall|i: int, j: int| 0 <= i < j < s.len() implies lex_lt(
                (#[trigger] s[i]).0,
                (#[trigger] s[j]).0,
            ) by {
                assert(s[j] == n[j - 1]);
                if i == 0 {
                    if j > 1 {
                        assert(lex_lt(n[0].0, n[j - 1].0));
                        lemma_lex_transitive(key, n[0].0, n[j - 1].0);
                    }
                } else {
                    assert(s[i] == n[i - 1]);
                }
            }
            assert forall|i: int| 0 <= i < s.len() implies (#[trigger] s[i]).0 == key || exists|j:
                int| 0 <= j < n.len() && (#[trigger] n[j]).0 == s[i].0 by {
                if i > 0 {
                    assert(s[i] == n[i - 1]);
                }
            }
        } else {
            let u = note_set(t, key, hash);
            lemma_lex_total(key, n[0].0);
            assert forall|i: int| 0 <= i < u.len() implies lex_lt(n[0].0, (#[trigger] u[i]).0) by {
                if u[i].0 != key {
                    let j = choose|j: int| 0 <= j < t.len() && (#[trigger] t[j]).0 == u[i].0;
                    assert(lex_lt(n[0].0, t[j].0));
                }
            }
            assert forall|i: int, j: int| 0 <= i < j < s.len() implies lex_lt(
                (#[trigger] s[i]).0,
                (#[trigger] s[j]).0,
            ) by {
                assert(s[j] == u[j - 1]);
                if i > 0 {
                    assert(s[i] == u[i - 1]);
                }
            }
            assert forall|i: int| 0 <= i < s.len() implies (#[trigger] s[i]).0 == key || exists|j:
                int| 0 <= j < n.len() && (#[trigger] n[j]).0 == s[i].0 by {
                if i > 0 {
                    assert(s[i] == u[i - 1]);
                    if u[i - 1].0 != key {
                        let j = choose|j: int|
                            0 <= j < t.len() && (#[trigger] t[j]).0 == u[i - 1].0;
                        assert(n[j + 1].0 == s[i].0);
                    }
                } else {
                    assert(n[0].0 == s[0].0);
                }
            }
        }
        // What was dropped.
        if n[0].0 == key {
            assert forall|i: int| 0 <= i < d.len() implies exists|j: int|
                0 <= j < n.len() && (#[trigger] n[j]).0 == (#[trigger] d[i]).0 by {
                assert(n[i + 1].0 == d[i].0);
            }
        } else {
            let u = note_dropped(t, key);
            assert forall|i: int| 0 <= i < u.len() implies lex_lt(n[0].0, (#[trigger] u[i]).0) by {
                let j = choose|j: int| 0 <= j < t.len() && (#[trigger] t[j]).0 == u[i].0;
                assert(lex_lt(n[0].0, t[j].0));
            }
            assert forall|i: int, j: int| 0 <= i < j < d.len() implies lex_lt(
                (#[trigger] d[i]).0,
                (#[trigger] d[j]).0,
            ) by {
                assert(d[j] == u[j - 1]);
                if i > 0 {
                    assert(d[i] == u[i - 1]);
                }
            }
            assert forall|i: int| 0 <= i < d.len() implies exists|j: int|
                0 <= j < n.len() && (#[trigger] n[j]).0 == (#[trigger] d[i]).0 by {
                if i > 0 {
                    assert(d[i] == u[i - 1]);
                    let j = choose|j: int| 0 <= j < t.len() && (#[trigger] t[j]).0 == u[i - 1].0;
                    assert(n[j + 1].0 == d[i].0);
                } else {
                    assert(n[0].0 == d[0].0);
                }
            }
        }
    }
}

/// A note that is dropped is gone, and the others are seen as before.
pub proof fn lemma_note_dropped(n: NotesView, key: Seq<char>, other: Seq<char>)
    requires
        keys_ascend(n),
    ensures
        note_at(note_dropped(n, key), other) == if other == key {
            None
        } else {
            note_at(n, other)
        },
    decreases n.len(),
{
    if n.len() > 0 {
        let t = n.drop_first();
        let d = note_dropped(n, key);
        lemma_tail_ascends(n);
        lemma_note_dropped(t, key, other);
        if n[0].0 == key {
            if other == key {
                lemma_lex_irreflexive(key);
                assert forall|i: int| 0 <= i < t.len() implies (#[trigger] t[i]).0 != key by {
                    assert(t[i] == n[i + 1]);
                    assert(lex_lt(n[0].0, n[i + 1].0));
                }
                lemma_no_note(t, key);
            }
        } else {
            assert(d.drop_first() =~= note_dropped(t, key));
            assert(d[0] == n[0]);
        }
    }
}

/// After a change of notes each key has what the last item for it says: a new reference, or none
/// where it is to go. A key that no item names has what it had. The keys stay in order.
pub proof fn lemma_notes_are_patched(n: NotesView, patch: NotesPatch, k: nat, key: Seq<char>)
    requires
        keys_ascend(n),
        k <= patch.len(),
    ensures
        keys_ascend(notes_patched(n, patch, k)),
        (forall|i: int| 0 <= i < k ==> (#[trigger] patch[i]).0 != key) ==> note_at(
            notes_patched(n, patch, k),
            key,
        ) == note_at(n, key),
        forall|i: int|
            0 <= i < k && (#[trigger] patch[i]).0 == key && (forall|j: int|
                i < j < k ==> (#[trigger] patch[j]).0 != key) ==> note_at(
                notes_patched(n, patch, k),
                key,
            ) == patch[i].1,
    decreases k,
{
    if k > 0 {
        lemma_notes_are_patched(n, patch, (k - 1) as nat, key);
        let before = notes_patched(n, patch, (k - 1) as nat);
        let (at, what) = patch[k - 1];
        let hash = match what {
            Some(h) => h,
            None => Seq::empty(),
        };
        lemma_keys_after(before, at, hash);
        lemma_note_set(before, at, hash, key);
        lemma_note_dropped(before, at, key);
        assert(patch[k - 1].0 == at);
    }
}

/// A part of a file is its bytes from the start of the range to before its end; a range that runs
/// backwards or past the end is refused.
pub proof fn lemma_part_of_a_file(bytes: Seq<u8>, range: Option<WorkspaceReadBytesRange>)
    ensures
        range is None ==> part_of(bytes, range) == Look::Found(bytes),
        range matches Some(x) ==> {
            &&& part_of(bytes, range) is Found <==> x.start <= x.end <= bytes.len()
            &&& part_of(bytes, range) matches Look::Found(b) ==> b.len() == x.end - x.start
                && forall|i: int| 0 <= i < b.len() ==> #[trigger] b[i] == bytes[x.start + i]
        },
{
}

proof fn lemma_version_root(versions: Seq<(u64, WorkspaceCommitMeta)>, v: u64)
    ensures
        match version_root(versions, v) {
            None => forall|i: int| 0 <= i < versions.len() ==> (#[trigger] versions[i]).0 != v,
            Some(root) => exists|k: int|
                0 <= k < versions.len() && (#[trigger] versions[k]).0 == v
                    && versions[k].1.root_hash@ == root && forall|j: int|
                    0 <= j < k ==> (#[trigger] versions[j]).0 != v,
        },
    decreases versions.len(),
{
    if versions.len() > 0 && versions[0].0 != v {
        let t = versions.drop_first();
        lemma_version_root(t, v);
        match version_root(t, v) {
            None => {
                assert forall|i: int| 0 <= i < versions.len() implies (#[trigger] versions[i]).0
                    != v by {
                    if i > 0 {
                        assert(t[i - 1] == versions[i]);
                    }
                }
            },
            Some(root) => {
                let k = choose|k: int|
                    0 <= k < t.len() && (#[trigger] t[k]).0 == v && t[k].1.root_hash@ == root
                        && forall|j: int| 0 <= j < k ==> (#[trigger] t[j]).0 != v;
                assert(versions[k + 1] == t[k]);
                assert forall|j: int| 0 <= j < k + 1 implies (#[trigger] versions[j]).0 != v by {
                    if j > 0 {
                        assert(t[j - 1] == versions[j]);
                    }
                }
            },
        }
    }
}

/// A version of a workspace is the one with the number that is asked for, and the latest where none
/// is. It is told with its root and with the number of the latest; one that is not in the history
/// does not exist.
pub proof fn lemma_version_is_told(
    r: WorkspaceResolveReceipt,
    history: Option<&WorkspaceHistory>,
    version: Option<u64>,
)
    requires
        tells_version(r, history, version),
    ensures
        history is None ==> !r.exists,
        history matches Some(h) ==> {
            let v = if version is Some {
                version->0
            } else {
                h.latest
            };
            &&& r.exists <==> exists|k: int|
                0 <= k < h.versions@.len() && (#[trigger] h.versions@[k]).0 == v
            &&& r.exists ==> r.resolved_version == Some(v) && r.head == Some(h.latest)
                && r.root_hash is Some && exists|k: int|
                0 <= k < h.versions@.len() && (#[trigger] h.versions@[k]).0 == v
                    && h.versions@[k].1.root_hash@ == r.root_hash->0@
            &&& !r.exists ==> r.resolved_version is None && r.head is None && r.root_hash is None
        },
{
    if let Some(h) = history {
        let v = if version is Some {
            version->0
        } else {
            h.latest
        };
        lemma_version_root(h.versions@, v);
    }
}

/// Comparing two trees the other way round gives the same two sides, exchanged; and a tree that is
/// compared with itself gives the same side twice.
pub proof fn lemma_sides_can_be_exchanged(
    nodes: Map<Seq<u8>, NodeView>,
    root_a: Seq<char>,
    root_b: Seq<char>,
    prefix: Option<Seq<char>>,
)
    ensures
        both_sides(nodes, root_a, root_b, prefix) is Found <==> both_sides(
            nodes,
            root_b,
            root_a,
            prefix,
        ) is Found,
        both_sides(nodes, root_a, root_b, prefix) matches Look::Found((x, y)) ==> both_sides(
            nodes,
            root_b,
            root_a,
            prefix,
        ) == Look::Found((y, x)),
        both_sides(nodes, root_a, root_a, prefix) matches Look::Found((x, y)) ==> x == y,
{
}

/// Without a path the sides are the whole trees of the two roots, which must be digests.
pub proof fn lemma_sides_are_the_trees(
    nodes: Map<Seq<u8>, NodeView>,
    root_a: Seq<char>,
    root_b: Seq<char>,
)
    ensures
        both_sides(nodes, root_a, root_b, None) matches Look::Found((x, y)) ==> {
            &&& is_hash_text(root_a) && is_hash_text(root_b)
            &&& subtree(nodes, ref_hash(root_a), Seq::empty(), MAX_DEPTH as nat) == Look::Found(x)
            &&& subtree(nodes, ref_hash(root_b), Seq::empty(), MAX_DEPTH as nat) == Look::Found(y)
        },
{
}

} // verus!
