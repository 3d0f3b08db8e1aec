//! Listing and comparing the trees of a workspace.
use vstd::prelude::*;

use crate::error::KernelError;
use crate::hash::{ContentHash, HashRef};
use crate::store::Store;
use crate::text::{lemma_lex_irreflexive, lemma_lex_total, lemma_lex_transitive, lex_lt, str_eq,
    str_lt};
use crate::workspace::ops::{failed, hash_from_ref, load_tree, ref_hash, tree_at, unread, Look};
use crate::workspace::{hash_view, join_path, path_under, query_error, EntryView, NodeView,
    TreeView, WorkspaceEntry, WorkspaceNode};

verus! {

/// An entry with its path.
pub type PathEntry = (Seq<char>, EntryView);

/// The entries of a directory with their paths.
pub open spec fn listed(t: TreeView, base: Seq<char>) -> Seq<PathEntry> {
    Seq::new(t.entries.len(), |i: int| (path_under(base, t.entries[i].name), t.entries[i]))
}

/// The entries of a directory and of the directories below it, each directory before what it
/// holds; at most `depth` levels.
pub open spec fn subtree(
    nodes: Map<Seq<u8>, NodeView>,
    root: Seq<u8>,
    base: Seq<char>,
    depth: nat,
) -> Look<Seq<PathEntry>>
    decreases depth, 1nat, 0nat,
{
    if depth == 0 {
        Look::Fault("workspace tree too deep"@)
    } else {
        match tree_at(nodes, root) {
            Look::Missing => Look::Missing,
            Look::Fault(f) => Look::Fault(f),
            Look::Found(t) => subtree_of(nodes, t.entries, base, depth, t.entries.len()),
        }
    }
}

/// What the first `n` entries of a directory come to.
pub open spec fn subtree_of(
    nodes: Map<Seq<u8>, NodeView>,
    entries: Seq<EntryView>,
    base: Seq<char>,
    depth: nat,
    n: nat,
) -> Look<Seq<PathEntry>>
    decreases depth, 0nat, n,
{
    if n == 0 || depth == 0 || n > entries.len() {
        Look::Found(Seq::empty())
    } else {
        match subtree_of(nodes, entries, base, depth, (n - 1) as nat) {
            Look::Missing => Look::Missing,
            Look::Fault(f) => Look::Fault(f),
            Look::Found(done) => {
                let e = entries[n - 1];
                let path = path_under(base, e.name);
                if e.kind == "dir"@ {
                    match subtree(nodes, ref_hash(e.hash), path, (depth - 1) as nat) {
                        Look::Missing => Look::Missing,
                        Look::Fault(f) => Look::Fault(f),
                        Look::Found(below) => Look::Found(done.push((path, e)) + below),
                    }
                } else {
                    Look::Found(done.push((path, e)))
                }
            },
        }
    }
}

proof fn lemma_subtree_of_stands(
    nodes: Map<Seq<u8>, NodeView>,
    entries: Seq<EntryView>,
    base: Seq<char>,
    depth: nat,
    k: nat,
    n: nat,
)
    requires
        depth > 0,
        k <= n <= entries.len(),
        !(subtree_of(nodes, entries, base, depth, k) is Found),
    ensures
        subtree_of(nodes, entries, base, depth, n) == subtree_of(nodes, entries, base, depth, k),
    decreases n,
{
    if k < n {
        lemma_subtree_of_stands(nodes, entries, base, depth, k, (n - 1) as nat);
    }
}

/// The models of entries with paths.
pub open spec fn found_view(v: Seq<(String, WorkspaceEntry)>) -> Seq<PathEntry> {
    Seq::new(v.len(), |i: int| (v[i].0@, v[i].1@))
}

/// Collects the entries of a directory and of those below it, at most `depth` levels.
pub fn collect_subtree_entries<S: Store<WorkspaceNode>>(
    store: &S,
    tree_hash: &ContentHash,
    base: &str,
    depth: u64,
    out: &mut Vec<(String, WorkspaceEntry)>,
) -> (r: Result<(), KernelError>)
    ensures
        ({
            let look = subtree(store.nodes(), tree_hash@, base@, depth as nat);
            match r {
                Ok(_) => look is Found && found_view(final(out)@) == found_view(old(out)@)
                    + look->Found_0,
                Err(e) => failed(e, *store, look),
            }
        }),
    decreases depth,
{
    if depth == 0 {
        return Err(query_error("workspace tree too deep"));
    }
    let tree = match load_tree(store, tree_hash) {
        Ok(t) => t,
        Err(e) => {
            return Err(e);
        },
    };
    let ghost nodes = store.nodes();
    let ghost entries = tree@.entries;
    let ghost start = found_view(out@);
    let ghost d = depth as nat;
    let mut i: usize = 0;
    assert(start + Seq::empty() =~= start);
    while i < tree.entries.len()
        invariant
            i <= tree.entries@.len(),
            depth > 0,
            d == depth as nat,
            nodes == store.nodes(),
            entries == tree@.entries,
            start == found_view(old(out)@),
            tree_at(nodes, tree_hash@) == Look::Found(tree@),
            ({
                let sofar = subtree_of(nodes, entries, base@, d, i as nat);
                sofar is Found && found_view(out@) == start + sofar->Found_0
            }),
        decreases tree.entries@.len() - i,
    {
        let entry = &tree.entries[i];
        assert(entries[i as int] == entry@);
        let ghost done = subtree_of(nodes, entries, base@, d, i as nat)->Found_0;
        let path = join_path(base, entry.name.as_str());
        let ghost before = found_view(out@);
        let ghost here = (path@, entry@);
        out.push((path.clone(), entry.copied()));
        assert(found_view(out@) =~= before.push(here));
        if str_eq(entry.kind.as_str(), "dir") {
            let child = hash_from_ref(&entry.hash);
            match collect_subtree_entries(store, &child, path.as_str(), depth - 1, out) {
                Ok(_) => {
                    proof {
                        let below = subtree(nodes, child@, path@, (d - 1) as nat)->Found_0;
                        assert(found_view(out@) =~= start + (done.push(here) + below));
                    }
                },
                Err(e) => {
                    proof {
                        if !unread(e, *store) {
                            lemma_subtree_of_stands(
                                nodes,
                                entries,
                                base@,
                                d,
                                (i + 1) as nat,
                                entries.len(),
                            );
                        }
                    }
                    return Err(e);
                },
            }
        } else {
            assert(found_view(out@) =~= start + done.push(here));
        }
        i += 1;
    }
    Ok(())
}

/// An entry of a listing.
#[derive(Debug, PartialEq, Eq)]
pub struct WorkspaceListEntry {
    pub path: String,
    pub kind: String,
    pub hash: Option<HashRef>,
    pub size: Option<u64>,
    pub mode: Option<u64>,
}

/// Whether an entry of a listing is that of an entry with a path.
pub open spec fn lists(l: WorkspaceListEntry, e: PathEntry) -> bool {
    &&& l.path@ == e.0
    &&& l.kind@ == e.1.kind
    &&& hash_view(l.hash) == Some(e.1.hash)
    &&& l.size == Some(e.1.size)
    &&& l.mode == Some(e.1.mode)
}

pub fn list_entry_from_tree(path: String, entry: &WorkspaceEntry) -> (r: WorkspaceListEntry)
    ensures
        lists(r, (path@, entry@)),
{
    WorkspaceListEntry {
        path,
        kind: entry.kind.clone(),
        hash: Some(entry.hash.clone()),
        size: Some(entry.size),
        mode: Some(entry.mode),
    }
}

/// Entries with `e` behind those whose path does not come after its own.
pub open spec fn placed(s: Seq<PathEntry>, e: PathEntry) -> Seq<PathEntry>
    decreases s.len(),
{
    if s.len() == 0 {
        seq![e]
    } else if lex_lt(e.0, s.last().0) {
        placed(s.drop_last(), e).push(s.last())
    } else {
        s.push(e)
    }
}

/// Entries in the order of their paths; those with one path stay in the order that they had.
pub open spec fn by_path(s: Seq<PathEntry>) -> Seq<PathEntry>
    decreases s.len(),
{
    if s.len() == 0 {
        s
    } else {
        placed(by_path(s.drop_last()), s.last())
    }
}

/// Whether the paths do not descend.
pub open spec fn path_order(s: Seq<PathEntry>) -> bool {
    forall|i: int, j: int| 0 <= i < j < s.len() ==> !lex_lt(#[trigger] s[j].0, #[trigger] s[i].0)
}

proof fn lemma_placed(s: Seq<PathEntry>, e: PathEntry)
    requires
        path_order(s),
    ensures
        path_order(placed(s, e)),
        placed(s, e).to_multiset() == s.to_multiset().insert(e),
        placed(s, e).len() == s.len() + 1,
        forall|x: Seq<char>|
            (forall|k: int| 0 <= k < s.len() ==> !lex_lt(x, (#[trigger] s[k]).0)) && !lex_lt(x, e.0)
                ==> forall|k: int|
                0 <= k < placed(s, e).len() ==> !lex_lt(x, (#[trigger] placed(s, e)[k]).0),
    decreases s.len(),
{
    broadcast use vstd::seq_lib::group_to_multiset_ensures;

    let t = placed(s, e);
    if s.len() == 0 {
        assert(t =~= Seq::<PathEntry>::empty().push(e));
        assert(s =~= Seq::empty());
    } else if lex_lt(e.0, s.last().0) {
        let front = s.drop_last();
        assert(path_order(front)) by {
            assert forall|i: int, j: int| 0 <= i < j < front.len() implies !lex_lt(
                #[trigger] front[j].0,
                #[trigger] front[i].0,
            ) by {
                assert(front[j] == s[j] && front[i] == s[i]);
            }
        }
        lemma_placed(front, e);
        let p = placed(front, e);
        assert(s =~= front.push(s.last()));
        assert(t.to_multiset() =~= s.to_multiset().insert(e));
        assert forall|k: int| 0 <= k < front.len() implies !lex_lt(
            s.last().0,
            (#[trigger] front[k]).0,
        ) by {
            assert(front[k] == s[k]);
        }
        assert(!lex_lt(s.last().0, e.0)) by {
            if lex_lt(s.last().0, e.0) {
                lemma_lex_transitive(e.0, s.last().0, e.0);
                lemma_lex_irreflexive(e.0);
            }
        }
        assert forall|i: int, j: int| 0 <= i < j < t.len() implies !lex_lt(
            #[trigger] t[j].0,
            #[trigger] t[i].0,
        ) by {
            if j < p.len() {
                assert(t[j] == p[j] && t[i] == p[i]);
            } else {
                assert(t[i] == p[i]);
            }
        }
        assert forall|x: Seq<char>|
            (forall|k: int| 0 <= k < s.len() ==> !lex_lt(x, (#[trigger] s[k]).0)) && !lex_lt(x, e.0)
            implies forall|k: int| 0 <= k < t.len() ==> !lex_lt(x, (#[trigger] t[k]).0) by {
            assert forall|k: int| 0 <= k < front.len() implies !lex_lt(x, (#[trigger] front[k]).0) by {
                assert(front[k] == s[k]);
            }
            assert forall|k: int| 0 <= k < t.len() implies !lex_lt(x, (#[trigger] t[k]).0) by {
                if k < p.len() {
                    assert(t[k] == p[k]);
                } else {
                    assert(t[k] == s[s.len() - 1]);
                }
            }
        }
    } else {
        assert forall|i: int, j: int| 0 <= i < j < t.len() implies !lex_lt(
            #[trigger] t[j].0,
            #[trigger] t[i].0,
        ) by {
            if j < s.len() {
                assert(t[j] == s[j] && t[i] == s[i]);
            } else if i < s.len() - 1 {
                assert(t[i] == s[i]);
                assert(!lex_lt(s[s.len() - 1].0, s[i].0));
                if lex_lt(e.0, s[i].0) {
                    lemma_lex_total(s[i].0, s.last().0);
                    if lex_lt(s[i].0, s.last().0) {
                        lemma_lex_transitive(e.0, s[i].0, s.last().0);
                    }
                }
            }
        }
        assert forall|x: Seq<char>|
            (forall|k: int| 0 <= k < s.len() ==> !lex_lt(x, (#[trigger] s[k]).0)) && !lex_lt(x, e.0)
            implies forall|k: int| 0 <= k < t.len() ==> !lex_lt(x, (#[trigger] t[k]).0) by {
            assert forall|k: int| 0 <= k < t.len() implies !lex_lt(x, (#[trigger] t[k]).0) by {
                if k < s.len() {
                    assert(t[k] == s[k]);
                }
            }
        }
    }
}

/// Sorting puts the paths in order and keeps all entries.
pub proof fn lemma_by_path(s: Seq<PathEntry>)
    ensures
        path_order(by_path(s)),
        by_path(s).to_multiset() == s.to_multiset(),
        by_path(s).len() == s.len(),
    decreases s.len(),
{
    broadcast use vstd::seq_lib::group_to_multiset_ensures;

    if s.len() > 0 {
        let front = s.drop_last();
        lemma_by_path(front);
        lemma_placed(by_path(front), s.last());
        assert(s =~= front.push(s.last()));
        assert(by_path(s).to_multiset() =~= s.to_multiset());
    }
}

/// Puts an entry behind those whose path does not come after its own.
fn place(out: &mut Vec<(String, WorkspaceEntry)>, item: (String, WorkspaceEntry))
    ensures
        found_view(final(out)@) == placed(found_view(old(out)@), (item.0@, item.1@)),
{
    let ghost s = found_view(out@);
    let ghost e = (item.0@, item.1@);
    let n: usize = out.len();
    let mut i: usize = n;
    proof {
        assert(s.take(n as int) =~= s);
        assert(placed(s, e) + s.skip(n as int) =~= placed(s, e));
    }
    while i > 0 && str_lt(item.0.as_str(), out[i - 1].0.as_str())
        invariant
            i <= n,
            n == out@.len(),
            *out == *old(out),
            s == found_view(out@),
            e == (item.0@, item.1@),
            placed(s, e) == placed(s.take(i as int), e) + s.skip(i as int),
        decreases i,
    {
        assert(s.take(i as int).last() == (out@[i - 1].0@, out@[i - 1].1@));
        assert(s.take(i as int).drop_last() =~= s.take(i - 1));
        assert(placed(s.take(i - 1), e).push(s[i - 1]) + s.skip(i as int) =~= placed(
            s.take(i - 1),
            e,
        ) + s.skip(i - 1));
        i -= 1;
    }
    proof {
        if i > 0 {
            assert(s.take(i as int).last() == (out@[i - 1].0@, out@[i - 1].1@));
        }
        assert(placed(s.take(i as int), e) =~= s.take(i as int).push(e));
    }
    out.insert(i, item);
    assert(found_view(out@) =~= s.take(i as int).push(e) + s.skip(i as int));
}

/// Sorts entries by their paths.
pub fn sort_by_path(items: Vec<(String, WorkspaceEntry)>) -> (r: Vec<(String, WorkspaceEntry)>)
    ensures
        found_view(r@) == by_path(found_view(items@)),
{
    let ghost all = found_view(items@);
    let mut out: Vec<(String, WorkspaceEntry)> = Vec::new();
    let mut i: usize = 0;
    assert(all.take(0) =~= Seq::empty());
    assert(found_view(out@) =~= by_path(all.take(0)));
    while i < items.len()
        invariant
            i <= items@.len(),
            all == found_view(items@),
            found_view(out@) == by_path(all.take(i as int)),
        decreases items@.len() - i,
    {
        proof {
            assert(all.take(i + 1).drop_last() =~= all.take(i as int));
            assert(all.take(i + 1).last() == all[i as int]);
        }
        place(&mut out, (items[i].0.clone(), items[i].1.copied()));
        i += 1;
    }
    assert(all.take(i as int) =~= all);
    out
}

/// The position of the first entry whose path comes after the cursor.
pub open spec fn after_cursor(s: Seq<PathEntry>, cursor: Option<Seq<char>>) -> int
    decreases s.len(),
{
    match cursor {
        None => 0,
        Some(c) => if s.len() == 0 {
            0
        } else if lex_lt(c, s[0].0) {
            0
        } else {
            1 + after_cursor(s.drop_first(), cursor)
        },
    }
}

pub proof fn lemma_after_cursor(s: Seq<PathEntry>, cursor: Option<Seq<char>>)
    ensures
        0 <= after_cursor(s, cursor) <= s.len(),
    decreases s.len(),
{
    if s.len() > 0 && cursor is Some {
        lemma_after_cursor(s.drop_first(), cursor);
    }
}

/// The end of a page that starts at `start`.
pub open spec fn page_end(len: int, start: int, limit: u64) -> int {
    if limit == 0 || start + limit >= len {
        len
    } else {
        start + limit
    }
}

/// A page of a listing.
#[derive(Debug, PartialEq, Eq)]
pub struct WorkspaceListReceipt {
    pub entries: Vec<WorkspaceListEntry>,
    pub next_cursor: Option<String>,
}

/// Whether a receipt is the page of a sorted listing that comes after a cursor.
pub open spec fn is_page(
    r: WorkspaceListReceipt,
    all: Seq<PathEntry>,
    cursor: Option<Seq<char>>,
    limit: u64,
) -> bool {
    let start = after_cursor(all, cursor);
    let end = page_end(all.len() as int, start, limit);
    &&& r.entries@.len() == end - start
    &&& forall|i: int|
        0 <= i < r.entries@.len() ==> lists(#[trigger] r.entries@[i], all[start + i])
    &&& match r.next_cursor {
        Some(c) => end < all.len() && end > start && c@ == all[end - 1].0,
        None => !(end < all.len() && end > start),
    }
}

fn find_start(items: &Vec<(String, WorkspaceEntry)>, cursor: &Option<String>) -> (r: usize)
    ensures
        r == after_cursor(
            found_view(items@),
            match *cursor {
                Some(c) => Some(c@),
                None => None,
            },
        ),
        r <= items@.len(),
{
    let ghost all = found_view(items@);
    match cursor {
        None => 0,
        Some(c) => {
            let mut i: usize = 0;
            assert(all.skip(0) =~= all);
            while i < items.len()
                invariant
                    i <= items@.len(),
                    all == found_view(items@),
                    *cursor == Some(*c),
                    after_cursor(all, Some(c@)) == i + after_cursor(all.skip(i as int), Some(c@)),
                decreases items@.len() - i,
            {
                assert(all.skip(i as int)[0] == (items@[i as int].0@, items@[i as int].1@));
                if str_lt(c.as_str(), items[i].0.as_str()) {
                    return i;
                }
                assert(all.skip(i as int).drop_first() =~= all.skip(i + 1));
                i += 1;
            }
            i
        },
    }
}

/// Takes a page out of a sorted listing.
pub fn take_page(items: &Vec<(String, WorkspaceEntry)>, cursor: &Option<String>, limit: u64) -> (r:
    WorkspaceListReceipt)
    ensures
        is_page(
            r,
            found_view(items@),
            match *cursor {
                Some(c) => Some(c@),
                None => None,
            },
            limit,
        ),
{
    let ghost all = found_view(items@);
    let n: usize = items.len();
    let start: usize = find_start(items, cursor);
    let end: usize = if limit == 0 || limit >= (n - start) as u64 {
        n
    } else {
        start + limit as usize
    };
    let next_cursor = if end < n && end > start {
        Some(items[end - 1].0.clone())
    } else {
        None
    };
    let mut entries: Vec<WorkspaceListEntry> = Vec::new();
    let mut i: usize = start;
    while i < end
        invariant
            start <= i <= end <= n,
            n == items@.len(),
            all == found_view(items@),
            entries@.len() == i - start,
            forall|k: int|
                0 <= k < entries@.len() ==> lists(#[trigger] entries@[k], all[start + k]),
        decreases end - i,
    {
        assert(all[i as int] == (items@[i as int].0@, items@[i as int].1@));
        entries.push(list_entry_from_tree(items[i].0.clone(), &items[i].1));
        i += 1;
    }
    WorkspaceListReceipt { entries, next_cursor }
}

/// The entry at a path among collected ones; of several the last.
pub open spec fn found_at(s: Seq<PathEntry>, path: Seq<char>) -> Option<EntryView>
    decreases s.len(),
{
    if s.len() == 0 {
        None
    } else if s.last().0 == path {
        Some(s.last().1)
    } else {
        found_at(s.drop_last(), path)
    }
}

fn look_up<'a>(items: &'a Vec<(String, WorkspaceEntry)>, path: &str) -> (r: Option<
    &'a WorkspaceEntry,
>)
    ensures
        match (r, found_at(found_view(items@), path@)) {
            (Some(e), Some(t)) => e@ == t,
            (None, None) => true,
            _ => false,
        },
{
    let ghost all = found_view(items@);
    let mut i: usize = items.len();
    assert(all.take(i as int) =~= all);
    while i > 0
        invariant
            i <= items@.len(),
            all == found_view(items@),
            found_at(all, path@) == found_at(all.take(i as int), path@),
        decreases i,
    {
        assert(all.take(i as int).last() == (items@[i - 1].0@, items@[i - 1].1@));
        if str_eq(items[i - 1].0.as_str(), path) {
            return Some(&items[i - 1].1);
        }
        assert(all.take(i as int).drop_last() =~= all.take(i - 1));
        i -= 1;
    }
    None
}

proof fn lemma_found_at(s: Seq<PathEntry>, path: Seq<char>)
    ensures
        found_at(s, path) is Some <==> exists|i: int| 0 <= i < s.len() && (#[trigger] s[i]).0 == path,
    decreases s.len(),
{
    if s.len() > 0 {
        lemma_found_at(s.drop_last(), path);
        if s.last().0 == path {
            assert(s[s.len() - 1].0 == path);
        } else {
            if found_at(s, path) is Some {
                let i = choose|i: int|
                    0 <= i < s.drop_last().len() && (#[trigger] s.drop_last()[i]).0 == path;
                assert(s[i].0 == path);
            }
            if exists|i: int| 0 <= i < s.len() && (#[trigger] s[i]).0 == path {
                let i = choose|i: int| 0 <= i < s.len() && (#[trigger] s[i]).0 == path;
                assert(s.drop_last()[i].0 == path);
            }
        }
    }
}

/// A difference between two trees at a path.
#[derive(Debug, PartialEq, Eq)]
pub struct WorkspaceDiffChange {
    pub path: String,
    pub kind: String,
    pub old_hash: Option<HashRef>,
    pub new_hash: Option<HashRef>,
}

/// The model of a difference.
pub struct ChangeView {
    pub path: Seq<char>,
    pub kind: Seq<char>,
    pub old_hash: Option<Seq<char>>,
    pub new_hash: Option<Seq<char>>,
}

impl View for WorkspaceDiffChange {
    type V = ChangeView;

    open spec fn view(&self) -> ChangeView {
        ChangeView {
            path: self.path@,
            kind: self.kind@,
            old_hash: hash_view(self.old_hash),
            new_hash: hash_view(self.new_hash),
        }
    }
}

/// How two trees differ at a path: in what is there, its content or its notes.
pub open spec fn change_at(a: Seq<PathEntry>, b: Seq<PathEntry>, path: Seq<char>) -> Option<
    ChangeView,
> {
    match (found_at(a, path), found_at(b, path)) {
        (None, None) => None,
        (Some(x), None) => Some(
            ChangeView { path, kind: x.kind, old_hash: Some(x.hash), new_hash: None },
        ),
        (None, Some(y)) => Some(
            ChangeView { path, kind: y.kind, old_hash: None, new_hash: Some(y.hash) },
        ),
        (Some(x), Some(y)) => if x.kind == y.kind && x.hash == y.hash && x.annotations
            == y.annotations {
            None
        } else {
            Some(ChangeView { path, kind: y.kind, old_hash: Some(x.hash), new_hash: Some(y.hash) })
        },
    }
}

pub open spec fn changes_view(v: Seq<WorkspaceDiffChange>) -> Seq<ChangeView> {
    Seq::new(v.len(), |i: int| v[i]@)
}

/// Whether `s` holds exactly the differences between two trees, in the order of their paths.
pub open spec fn are_changes(s: Seq<ChangeView>, a: Seq<PathEntry>, b: Seq<PathEntry>) -> bool {
    &&& forall|i: int, j: int|
        0 <= i < j < s.len() ==> lex_lt((#[trigger] s[i]).path, (#[trigger] s[j]).path)
    &&& forall|i: int|
        0 <= i < s.len() ==> change_at(a, b, (#[trigger] s[i]).path) == Some(s[i])
    &&& forall|p: Seq<char>| #[trigger]
        change_at(a, b, p) is Some ==> s.contains(change_at(a, b, p)->0)
}

/// Equal trees do not differ.
pub proof fn lemma_no_change(s: Seq<ChangeView>, a: Seq<PathEntry>)
    requires
        are_changes(s, a, a),
    ensures
        s.len() == 0,
{
    if s.len() > 0 {
        assert(change_at(a, a, s[0].path) == Some(s[0]));
    }
}

spec fn texts_of(v: Seq<String>) -> Seq<Seq<char>> {
    Seq::new(v.len(), |i: int| v[i]@)
}

spec fn strictly_sorted(s: Seq<Seq<char>>) -> bool {
    forall|i: int, j: int| 0 <= i < j < s.len() ==> lex_lt(#[trigger] s[i], #[trigger] s[j])
}

/// Puts a path among sorted paths, unless it is there.
fn add_path(paths: &mut Vec<String>, path: &String)
    requires
        strictly_sorted(texts_of(old(paths)@)),
    ensures
        strictly_sorted(texts_of(final(paths)@)),
        forall|x: Seq<char>| #[trigger]
            texts_of(final(paths)@).contains(x) <==> texts_of(old(paths)@).contains(x) || x
                == path@,
{
    let ghost s = texts_of(paths@);
    let n: usize = paths.len();
    let mut i: usize = 0;
    while i < n && str_lt(paths[i].as_str(), path.as_str())
        invariant
            i <= n,
            n == paths@.len(),
            *paths == *old(paths),
            s == texts_of(paths@),
            forall|k: int| 0 <= k < i ==> lex_lt(#[trigger] s[k], path@),
        decreases n - i,
    {
        assert(s[i as int] == paths@[i as int]@);
        i += 1;
    }
    if i < n {
        assert(s[i as int] == paths@[i as int]@);
        if str_eq(paths[i].as_str(), path.as_str()) {
            assert(s.contains(path@));
            return;
        }
    }
    proof {
        if i < n {
            lemma_lex_total(s[i as int], path@);
            assert forall|k: int| i <= k < n implies lex_lt(path@, #[trigger] s[k]) by {
                if k > i {
                    assert(lex_lt(s[i as int], s[k]));
                    lemma_lex_transitive(path@, s[i as int], s[k]);
                }
            }
        }
    }
    paths.insert(i, path.clone());
    proof {
        let t = texts_of(paths@);
        assert(t =~= s.insert(i as int, path@));
        assert forall|a: int, b: int| 0 <= a < b < t.len() implies lex_lt(
            #[trigger] t[a],
            #[trigger] t[b],
        ) by {
            let sa = if a < i {
                a
            } else {
                a - 1
            };
            let sb = if b < i {
                b
            } else {
                b - 1
            };
            if a != i && b != i {
                assert(lex_lt(s[sa], s[sb]));
            }
        }
        assert forall|x: Seq<char>| #[trigger] t.contains(x) <==> s.contains(x) || x == path@ by {
            if t.contains(x) {
                let k = choose|k: int| 0 <= k < t.len() && t[k] == x;
                if k < i {
                    assert(s[k] == x);
                } else if k > i {
                    assert(s[k - 1] == x);
                }
            }
            if s.contains(x) {
                let k = choose|k: int| 0 <= k < s.len() && s[k] == x;
                if k < i {
                    assert(t[k] == x);
                } else {
                    assert(t[k + 1] == x);
                }
            }
            if x == path@ {
                assert(t[i as int] == x);
            }
        }
    }
}

fn add_paths(paths: &mut Vec<String>, items: &Vec<(String, WorkspaceEntry)>)
    requires
        strictly_sorted(texts_of(old(paths)@)),
    ensures
        strictly_sorted(texts_of(final(paths)@)),
        forall|x: Seq<char>| #[trigger]
            texts_of(final(paths)@).contains(x) <==> texts_of(old(paths)@).contains(x) || found_at(
                found_view(items@),
                x,
            ) is Some,
{
    let ghost all = found_view(items@);
    let ghost start = texts_of(paths@);
    let mut i: usize = 0;
    assert(all.take(0) =~= Seq::empty());
    while i < items.len()
        invariant
            i <= items@.len(),
            all == found_view(items@),
            start == texts_of(old(paths)@),
            strictly_sorted(texts_of(paths@)),
            forall|x: Seq<char>| #[trigger]
                texts_of(paths@).contains(x) <==> start.contains(x) || found_at(
                    all.take(i as int),
                    x,
                ) is Some,
        decreases items@.len() - i,
    {
        let ghost before = texts_of(paths@);
        add_path(paths, &items[i].0);
        proof {
            assert(all.take(i + 1).drop_last() =~= all.take(i as int));
            assert(all.take(i + 1).last().0 == items@[i as int].0@);
            assert forall|x: Seq<char>| #[trigger]
                texts_of(paths@).contains(x) <==> start.contains(x) || found_at(
                    all.take(i + 1),
                    x,
                ) is Some by {
                assert(texts_of(paths@).contains(x) <==> before.contains(x) || x
                    == items@[i as int].0@);
            }
        }
        i += 1;
    }
    assert(all.take(i as int) =~= all);
}

fn same_option(a: &Option<HashRef>, b: &Option<HashRef>) -> (r: bool)
    ensures
        r == (hash_view(*a) == hash_view(*b)),
{
    match (a, b) {
        (Some(x), Some(y)) => str_eq(x.as_str(), y.as_str()),
        (None, None) => true,
        _ => false,
    }
}

/// The difference at a path.
fn compare_at(
    a: &Vec<(String, WorkspaceEntry)>,
    b: &Vec<(String, WorkspaceEntry)>,
    path: &String,
) -> (r: Option<WorkspaceDiffChange>)
    ensures
        match (r, change_at(found_view(a@), found_view(b@), path@)) {
            (Some(c), Some(t)) => c@ == t,
            (None, None) => true,
            _ => false,
        },
{
    match (look_up(a, path.as_str()), look_up(b, path.as_str())) {
        (None, None) => None,
        (Some(x), None) => Some(
            WorkspaceDiffChange {
                path: path.clone(),
                kind: x.kind.clone(),
                old_hash: Some(x.hash.clone()),
                new_hash: None,
            },
        ),
        (None, Some(y)) => Some(
            WorkspaceDiffChange {
                path: path.clone(),
                kind: y.kind.clone(),
                old_hash: None,
                new_hash: Some(y.hash.clone()),
            },
        ),
        (Some(x), Some(y)) => if str_eq(x.kind.as_str(), y.kind.as_str()) && str_eq(
            x.hash.as_str(),
            y.hash.as_str(),
        ) && same_option(&x.annotations_hash, &y.annotations_hash) {
            None
        } else {
            Some(
                WorkspaceDiffChange {
                    path: path.clone(),
                    kind: y.kind.clone(),
                    old_hash: Some(x.hash.clone()),
                    new_hash: Some(y.hash.clone()),
                },
            )
        },
    }
}

/// The differences between two collections of entries, in the order of their paths.
pub fn diff_entries(a: &Vec<(String, WorkspaceEntry)>, b: &Vec<(String, WorkspaceEntry)>) -> (r:
    Vec<WorkspaceDiffChange>)
    ensures
        are_changes(changes_view(r@), found_view(a@), found_view(b@)),
{
    let ghost x = found_view(a@);
    let ghost y = found_view(b@);
    let mut paths: Vec<String> = Vec::new();
    add_paths(&mut paths, a);
    add_paths(&mut paths, b);
    let ghost all = texts_of(paths@);
    assert forall|p: Seq<char>| #[trigger] change_at(x, y, p) is Some implies all.contains(p) by {}
    let mut out: Vec<WorkspaceDiffChange> = Vec::new();
    let mut i: usize = 0;
    while i < paths.len()
        invariant
            i <= paths@.len(),
            all == texts_of(paths@),
            strictly_sorted(all),
            x == found_view(a@),
            y == found_view(b@),
            forall|p: int, q: int|
                0 <= p < q < out@.len() ==> lex_lt(
                    (#[trigger] out@[p]).path@,
                    (#[trigger] out@[q]).path@,
                ),
            forall|p: int|
                0 <= p < out@.len() ==> change_at(x, y, (#[trigger] out@[p]).path@) == Some(
                    out@[p]@,
                ),
            forall|p: int|
                0 <= p < out@.len() ==> exists|k: int|
                    0 <= k < i && (#[trigger] out@[p]).path@ == #[trigger] all[k],
            forall|k: int|
                0 <= k < i && change_at(x, y, #[trigger] all[k]) is Some ==> changes_view(
                    out@,
                ).contains(change_at(x, y, all[k])->0),
        decreases paths@.len() - i,
    {
        assert(all[i as int] == paths@[i as int]@);
        let ghost before = out@;
        match compare_at(a, b, &paths[i]) {
            None => {},
            Some(c) => {
                let ghost cv = c@;
                out.push(c);
                proof {
                    assert forall|p: int, q: int| 0 <= p < q < out@.len() implies lex_lt(
                        (#[trigger] out@[p]).path@,
                        (#[trigger] out@[q]).path@,
                    ) by {
                        if q == out@.len() - 1 {
                            assert(out@[p] == before[p]);
                            let k = choose|k: int|
                                0 <= k < i && before[p].path@ == #[trigger] all[k];
                            assert(lex_lt(all[k], all[i as int]));
                        } else {
                            assert(out@[p] == before[p] && out@[q] == before[q]);
                        }
                    }
                    assert(changes_view(out@) =~= changes_view(before).push(cv));
                    assert(changes_view(out@)[before.len() as int] == cv);
                    assert forall|k: int|
                        0 <= k < i && change_at(x, y, #[trigger] all[k]) is Some implies changes_view(
                        out@,
                    ).contains(change_at(x, y, all[k])->0) by {
                        let w = change_at(x, y, all[k])->0;
                        let q = choose|q: int|
                            0 <= q < changes_view(before).len() && changes_view(before)[q] == w;
                        assert(changes_view(out@)[q] == w);
                    }
                }
            },
        }
        i += 1;
    }
    proof {
        let s = changes_view(out@);
        assert forall|p: Seq<char>| #[trigger] change_at(x, y, p) is Some implies s.contains(
            change_at(x, y, p)->0,
        ) by {
            assert(all.contains(p));
            let k = choose|k: int| 0 <= k < all.len() && all[k] == p;
            assert(change_at(x, y, all[k]) is Some);
        }
        assert forall|i: int, j: int| 0 <= i < j < s.len() implies lex_lt(
            (#[trigger] s[i]).path,
            (#[trigger] s[j]).path,
        ) by {
            assert(s[i].path == out@[i].path@ && s[j].path == out@[j].path@);
        }
        assert forall|i: int| 0 <= i < s.len() implies change_at(x, y, (#[trigger] s[i]).path)
            == Some(s[i]) by {
            assert(s[i] == out@[i]@);
        }
    }
    out
}

} // verus!
