//! Whoever follows the cursors of a listing sees every path once.
use vstd::prelude::*;

use crate::text::{lemma_lex_irreflexive, lemma_lex_total, lemma_lex_transitive, lex_lt};
use crate::workspace::handlers::{listing, place_of, MAX_DEPTH};
use crate::workspace::laws::{lemma_valid, valid_entries};
use crate::workspace::list::{after_cursor, by_path, is_page, lemma_by_path, listed, lists, page_end,
    subtree, subtree_of, PathEntry, WorkspaceListEntry, WorkspaceListReceipt};
use crate::workspace::ops::{dir_at, entry_fault, prev_name, ref_hash, tree_at, tree_fault, Look};
use crate::workspace::{is_segment, joined, path_under, url_safe, EntryView, NodeView};

verus! {

/// Whether no two entries have one path.
pub open spec fn distinct_paths(s: Seq<PathEntry>) -> bool {
    forall|i: int, j: int| 0 <= i < j < s.len() ==> (#[trigger] s[i]).0 != (#[trigger] s[j]).0
}

/// Whether the paths ascend.
pub open spec fn ascending(s: Seq<PathEntry>) -> bool {
    forall|i: int, j: int| 0 <= i < j < s.len() ==> lex_lt((#[trigger] s[i]).0, (#[trigger] s[j]).0)
}

/// Whether a path is `q`, or leads on from it.
pub open spec fn at_or_below(p: Seq<char>, q: Seq<char>) -> bool {
    p == q || (p.len() > q.len() && p.take(q.len() as int) == q && p[q.len() as int] == '/')
}

/// Paths that lead on from different names in one directory differ.
proof fn lemma_names_part(base: Seq<char>, a: Seq<char>, b: Seq<char>, p: Seq<char>, q: Seq<char>)
    requires
        is_segment(a),
        is_segment(b),
        a != b,
        at_or_below(p, path_under(base, a)),
        at_or_below(q, path_under(base, b)),
    ensures
        p != q,
{
    if p == q {
        if path_under(base, a).len() <= path_under(base, b).len() {
            lemma_name_reaches(base, a, b, p);
        } else {
            lemma_name_reaches(base, b, a, p);
        }
    }
}

/// A path leads on from one name in a directory only.
proof fn lemma_name_reaches(base: Seq<char>, a: Seq<char>, b: Seq<char>, p: Seq<char>)
    requires
        is_segment(a),
        is_segment(b),
        path_under(base, a).len() <= path_under(base, b).len(),
        at_or_below(p, path_under(base, a)),
        at_or_below(p, path_under(base, b)),
    ensures
        a == b,
{
    reveal_strlit("/");
    let x = path_under(base, a);
    let y = path_under(base, b);
    let k: int = if base.len() == 0 {
        0
    } else {
        base.len() as int + 1
    };
    assert(x.skip(k) =~= a);
    assert(y.skip(k) =~= b);
    assert(forall|i: int| 0 <= i < x.len() ==> x[i] == #[trigger] p[i]) by {
        assert forall|i: int| 0 <= i < x.len() implies x[i] == #[trigger] p[i] by {
            assert(p.take(x.len() as int)[i] == p[i]);
        }
    }
    assert(forall|i: int| 0 <= i < y.len() ==> y[i] == #[trigger] p[i]) by {
        assert forall|i: int| 0 <= i < y.len() implies y[i] == #[trigger] p[i] by {
            assert(p.take(y.len() as int)[i] == p[i]);
        }
    }
    if x.len() < y.len() {
        let n = x.len() as int;
        assert(p[n] == '/');
        assert(y[n] == p[n]);
        assert(b[n - k] == '/');
        assert(url_safe(b[n - k]));
    }
    assert(x =~= y);
}

/// What lies below a directory leads on from the path of the directory.
proof fn lemma_leads_on(base: Seq<char>, name: Seq<char>, p: Seq<char>)
    requires
        base.len() > 0,
        at_or_below(p, path_under(base, name)),
    ensures
        at_or_below(p, base),
        p != base,
{
    reveal_strlit("/");
    let x = path_under(base, name);
    assert(p.take(x.len() as int) == x || p == x);
    assert(x.take(base.len() as int) =~= base);
    assert(p.take(base.len() as int) =~= base) by {
        assert forall|i: int| 0 <= i < base.len() implies p[i] == base[i] by {
            assert(x[i] == base[i]);
            if p != x {
                assert(p.take(x.len() as int)[i] == p[i]);
            }
        }
    }
    assert(x[base.len() as int] == '/');
    if p != x {
        assert(p.take(x.len() as int)[base.len() as int] == p[base.len() as int]);
    }
}

/// The names of a directory ascend.
proof fn lemma_names_ascend(entries: Seq<EntryView>, i: int, j: int)
    requires
        valid_entries(entries),
        0 <= i < j < entries.len(),
    ensures
        lex_lt(entries[i].name, entries[j].name),
    decreases j,
{
    assert(entry_fault(entries[j], prev_name(entries, j)) is None);
    if i < j - 1 {
        lemma_names_ascend(entries, i, j - 1);
        lemma_lex_transitive(entries[i].name, entries[j - 1].name, entries[j].name);
    }
}

/// Whether every path is that of one of the first `n` entries of a directory, or leads on from it.
spec fn under_entries(
    s: Seq<PathEntry>,
    base: Seq<char>,
    entries: Seq<EntryView>,
    n: nat,
) -> bool {
    forall|i: int|
        0 <= i < s.len() ==> exists|k: int|
            0 <= k < n && at_or_below(
                (#[trigger] s[i]).0,
                path_under(base, (#[trigger] entries[k]).name),
            )
}

/// The paths of a tree differ.
proof fn lemma_subtree_paths(
    nodes: Map<Seq<u8>, NodeView>,
    root: Seq<u8>,
    base: Seq<char>,
    depth: nat,
)
    ensures
        subtree(nodes, root, base, depth) matches Look::Found(s) ==> {
            &&& distinct_paths(s)
            &&& forall|i: int|
                0 <= i < s.len() ==> exists|name: Seq<char>|
                    is_segment(name) && at_or_below(
                        (#[trigger] s[i]).0,
                        #[trigger] path_under(base, name),
                    )
        },
    decreases depth, 1nat, 0nat,
{
    if depth > 0 && tree_at(nodes, root) is Found {
        let t = tree_at(nodes, root)->Found_0;
        lemma_subtree_of_paths(nodes, t.entries, base, depth, t.entries.len());
        if subtree(nodes, root, base, depth) is Found {
            let s = subtree(nodes, root, base, depth)->Found_0;
            lemma_valid(t.entries, t.entries.len());
            assert forall|i: int| 0 <= i < s.len() implies exists|name: Seq<char>|
                is_segment(name) && at_or_below(
                    (#[trigger] s[i]).0,
                    #[trigger] path_under(base, name),
                ) by {
                let k = choose|k: int|
                    0 <= k < t.entries.len() && at_or_below(
                        s[i].0,
                        path_under(base, (#[trigger] t.entries[k]).name),
                    );
                assert(entry_fault(t.entries[k], prev_name(t.entries, k)) is None);
                assert(is_segment(t.entries[k].name));
            }
        }
    }
}

/// Whether every path leads on from `path`.
spec fn all_lead_on(s: Seq<PathEntry>, path: Seq<char>) -> bool {
    forall|j: int| 0 <= j < s.len() ==> at_or_below((#[trigger] s[j]).0, path) && s[j].0 != path
}

/// The paths of a tree with one more entry and what lies below that entry.
proof fn lemma_joined_paths(
    done: Seq<PathEntry>,
    below: Seq<PathEntry>,
    base: Seq<char>,
    entries: Seq<EntryView>,
    n: nat,
)
    requires
        valid_entries(entries),
        0 < n <= entries.len(),
        distinct_paths(done),
        under_entries(done, base, entries, (n - 1) as nat),
        distinct_paths(below),
        all_lead_on(below, path_under(base, entries[n - 1].name)),
    ensures
        ({
            let e = entries[n - 1];
            let s = done.push((path_under(base, e.name), e)) + below;
            distinct_paths(s) && under_entries(s, base, entries, n)
        }),
{
    let e = entries[n - 1];
    let path = path_under(base, e.name);
    let s = done.push((path, e)) + below;
    let m = done.len() as int;
    assert(entry_fault(e, prev_name(entries, n - 1)) is None);
    assert forall|i: int| m <= i < s.len() implies at_or_below((#[trigger] s[i]).0, path) by {
        if i > m {
            assert(s[i] == below[i - m - 1]);
        }
    }
    assert forall|i: int| 0 <= i < s.len() implies exists|k: int|
        0 <= k < n && at_or_below(
            (#[trigger] s[i]).0,
            path_under(base, (#[trigger] entries[k]).name),
        ) by {
        if i < m {
            assert(s[i] == done[i]);
            let k = choose|k: int|
                0 <= k < n - 1 && at_or_below(
                    done[i].0,
                    path_under(base, (#[trigger] entries[k]).name),
                );
            assert(at_or_below(s[i].0, path_under(base, entries[k].name)));
        } else {
            assert(at_or_below(s[i].0, path_under(base, entries[n - 1].name)));
        }
    }
    assert forall|i: int, j: int| 0 <= i < j < s.len() implies (#[trigger] s[i]).0 != (
    #[trigger] s[j]).0 by {
        if j < m {
            assert(s[i] == done[i] && s[j] == done[j]);
        } else if i < m {
            assert(s[i] == done[i]);
            let k = choose|k: int|
                0 <= k < n - 1 && at_or_below(
                    done[i].0,
                    path_under(base, (#[trigger] entries[k]).name),
                );
            assert(entry_fault(entries[k], prev_name(entries, k)) is None);
            lemma_names_ascend(entries, k, n - 1);
            lemma_lex_irreflexive(e.name);
            lemma_names_part(base, entries[k].name, e.name, s[i].0, s[j].0);
        } else if i == m {
            assert(s[j] == below[j - m - 1]);
        } else {
            assert(s[i] == below[i - m - 1] && s[j] == below[j - m - 1]);
        }
    }
}

proof fn lemma_subtree_of_paths(
    nodes: Map<Seq<u8>, NodeView>,
    entries: Seq<EntryView>,
    base: Seq<char>,
    depth: nat,
    n: nat,
)
    requires
        depth > 0,
        n <= entries.len(),
        tree_fault(entries, entries.len()) is None,
    ensures
        subtree_of(nodes, entries, base, depth, n) matches Look::Found(s) ==> distinct_paths(s)
            && under_entries(s, base, entries, n),
    decreases depth, 0nat, n,
{
    if n > 0 && subtree_of(nodes, entries, base, depth, n) is Found {
        lemma_subtree_of_paths(nodes, entries, base, depth, (n - 1) as nat);
        lemma_valid(entries, entries.len());
        let done = subtree_of(nodes, entries, base, depth, (n - 1) as nat)->Found_0;
        let e = entries[n - 1];
        let path = path_under(base, e.name);
        assert(entry_fault(e, prev_name(entries, n - 1)) is None);
        let s = subtree_of(nodes, entries, base, depth, n)->Found_0;
        if e.kind == "dir"@ {
            let below = subtree(nodes, ref_hash(e.hash), path, (depth - 1) as nat)->Found_0;
            lemma_subtree_paths(nodes, ref_hash(e.hash), path, (depth - 1) as nat);
            assert forall|j: int| 0 <= j < below.len() implies at_or_below(
                (#[trigger] below[j]).0,
                path,
            ) && below[j].0 != path by {
                let name = choose|name: Seq<char>|
                    is_segment(name) && at_or_below(below[j].0, #[trigger] path_under(path, name));
                lemma_leads_on(path, name, below[j].0);
            }
            lemma_joined_paths(done, below, base, entries, n);
        } else {
            let below = Seq::<PathEntry>::empty();
            lemma_joined_paths(done, below, base, entries, n);
            assert(done.push((path, e)) + below =~= done.push((path, e)));
        }
    }
}

/// The paths of a directory differ.
proof fn lemma_listed_paths(entries: Seq<EntryView>, base: Seq<char>)
    requires
        tree_fault(entries, entries.len()) is None,
    ensures
        forall|i: int, j: int|
            0 <= i < j < entries.len() ==> path_under(base, (#[trigger] entries[i]).name)
                != path_under(base, (#[trigger] entries[j]).name),
{
    lemma_valid(entries, entries.len());
    assert forall|i: int, j: int| 0 <= i < j < entries.len() implies path_under(
        base,
        (#[trigger] entries[i]).name,
    ) != path_under(base, (#[trigger] entries[j]).name) by {
        assert(entry_fault(entries[i], prev_name(entries, i)) is None);
        assert(entry_fault(entries[j], prev_name(entries, j)) is None);
        lemma_names_ascend(entries, i, j);
        lemma_lex_irreflexive(entries[i].name);
        lemma_names_part(
            base,
            entries[i].name,
            entries[j].name,
            path_under(base, entries[i].name),
            path_under(base, entries[j].name),
        );
    }
}

/// No path occurs twice in what a listing covers.
pub proof fn lemma_listing_is_distinct(
    nodes: Map<Seq<u8>, NodeView>,
    root: Seq<char>,
    path: Option<Seq<char>>,
    scope: Option<Seq<char>>,
)
    ensures
        listing(nodes, root, path, scope) matches Look::Found(s) ==> distinct_paths(s),
{
    if listing(nodes, root, path, scope) is Found {
        let (h, p) = place_of(root, path)->Found_0;
        let dir = dir_at(nodes, h, p)->Found_0;
        lemma_subtree_paths(nodes, dir, joined(p), MAX_DEPTH as nat);
        if tree_at(nodes, dir) is Found {
            let t = tree_at(nodes, dir)->Found_0;
            lemma_listed_paths(t.entries, joined(p));
            assert(distinct_paths(listed(t, joined(p)))) by {
                assert forall|i: int, j: int|
                    0 <= i < j < t.entries.len() implies (#[trigger] listed(t, joined(p))[i]).0 != (
                #[trigger] listed(t, joined(p))[j]).0 by {
                    let a = t.entries[i];
                    let b = t.entries[j];
                }
            }
        }
    }
}

/// Different paths ascend once they are sorted.
pub proof fn lemma_sorted_ascends(s: Seq<PathEntry>)
    requires
        distinct_paths(s),
    ensures
        ascending(by_path(s)),
{
    broadcast use vstd::seq_lib::group_to_multiset_ensures;

    let t = by_path(s);
    lemma_by_path(s);
    assert(s.no_duplicates());
    s.lemma_multiset_has_no_duplicates();
    t.lemma_multiset_has_no_duplicates_conv();
    assert forall|i: int, j: int| 0 <= i < j < t.len() implies lex_lt(
        (#[trigger] t[i]).0,
        (#[trigger] t[j]).0,
    ) by {
        assert(t.to_multiset().contains(t[i]) && t.to_multiset().contains(t[j]));
        assert(s.contains(t[i]) && s.contains(t[j]));
        let a = choose|a: int| 0 <= a < s.len() && s[a] == t[i];
        let b = choose|b: int| 0 <= b < s.len() && s[b] == t[j];
        assert(t[i] != t[j]);
        if a < b {
            assert(s[a].0 != s[b].0);
        } else {
            assert(s[b].0 != s[a].0);
        }
        lemma_lex_total(t[i].0, t[j].0);
    }
}

/// A page starts where the one with its cursor ended.
proof fn lemma_starts_after(s: Seq<PathEntry>, n: nat)
    requires
        ascending(s),
        0 < n <= s.len(),
    ensures
        after_cursor(s, Some(s[n - 1].0)) == n,
{
    lemma_counts(s, s[n - 1].0, n, 0);
    assert(s.skip(0) =~= s);
}

proof fn lemma_counts(s: Seq<PathEntry>, c: Seq<char>, n: nat, k: nat)
    requires
        ascending(s),
        0 < n <= s.len(),
        c == s[n - 1].0,
        k <= n,
    ensures
        after_cursor(s.skip(k as int), Some(c)) == n - k,
    decreases n - k,
{
    let rest = s.skip(k as int);
    if k < n {
        assert(rest[0] == s[k as int]);
        assert(!lex_lt(c, s[k as int].0)) by {
            if k < n - 1 {
                assert(lex_lt(s[k as int].0, s[n - 1].0));
                if lex_lt(c, s[k as int].0) {
                    lemma_lex_transitive(c, s[k as int].0, c);
                    lemma_lex_irreflexive(c);
                }
            } else {
                lemma_lex_irreflexive(c);
            }
        }
        assert(rest.drop_first() =~= s.skip(k as int + 1));
        lemma_counts(s, c, n, k + 1);
    } else if k < s.len() {
        assert(rest[0] == s[k as int]);
        assert(lex_lt(s[n - 1].0, s[k as int].0));
    } else {
        assert(rest.len() == 0);
    }
}

/// Whether these are the pages of a sorted listing for one who follows the cursors from the start
/// to the end.
pub open spec fn pages_follow(
    pages: Seq<WorkspaceListReceipt>,
    all: Seq<PathEntry>,
    limit: u64,
) -> bool {
    &&& pages.len() > 0
    &&& is_page(pages[0], all, None, limit)
    &&& forall|i: int|
        0 < i < pages.len() ==> pages[i - 1].next_cursor is Some && is_page(
            #[trigger] pages[i],
            all,
            Some(pages[i - 1].next_cursor->Some_0@),
            limit,
        )
    &&& pages.last().next_cursor is None
}

/// The entries of pages, one page after the other.
pub open spec fn entries_of(pages: Seq<WorkspaceListReceipt>) -> Seq<WorkspaceListEntry>
    decreases pages.len(),
{
    if pages.len() == 0 {
        Seq::empty()
    } else {
        entries_of(pages.drop_last()) + pages.last().entries@
    }
}

/// The first `n` pages hold the first entries of the listing, up to where the last of them ends.
proof fn lemma_first_pages(
    pages: Seq<WorkspaceListReceipt>,
    all: Seq<PathEntry>,
    limit: u64,
    n: nat,
)
    requires
        pages_follow(pages, all, limit),
        ascending(all),
        0 < n <= pages.len(),
    ensures
        ({
            let seen = entries_of(pages.take(n as int));
            &&& seen.len() <= all.len()
            &&& forall|i: int| 0 <= i < seen.len() ==> lists(#[trigger] seen[i], all[i])
            &&& match pages[n - 1].next_cursor {
                Some(c) => 0 < seen.len() && c@ == all[seen.len() - 1].0,
                None => seen.len() == all.len(),
            }
        }),
    decreases n,
{
    let here = pages.take(n as int);
    let page = pages[n - 1];
    assert(here.last() == page);
    assert(here.drop_last() =~= pages.take(n - 1));
    let before = entries_of(pages.take(n - 1));
    let seen = entries_of(here);
    let start: int = if n == 1 {
        assert(pages.take(0) =~= Seq::empty());
        0
    } else {
        lemma_first_pages(pages, all, limit, (n - 1) as nat);
        assert(pages[n - 2].next_cursor is Some) by {
            let i = n - 1;
            assert(is_page(
                pages[i],
                all,
                Some(pages[i - 1].next_cursor->Some_0@),
                limit,
            ));
        }
        lemma_starts_after(all, before.len());
        before.len() as int
    };
    let end = page_end(all.len() as int, start, limit);
    assert(page.entries@.len() == end - start);
    assert forall|i: int| 0 <= i < seen.len() implies lists(#[trigger] seen[i], all[i]) by {
        if i < start {
            assert(seen[i] == before[i]);
        } else {
            assert(seen[i] == page.entries@[i - start]);
        }
    }
}

/// The pages of a listing, followed by their cursors from the start to the end, hold every entry
/// that the listing covers, in the order of the paths, and no path twice.
pub proof fn lemma_pages_list_all(
    nodes: Map<Seq<u8>, NodeView>,
    root: Seq<char>,
    path: Option<Seq<char>>,
    scope: Option<Seq<char>>,
    limit: u64,
    pages: Seq<WorkspaceListReceipt>,
)
    requires
        listing(nodes, root, path, scope) is Found,
        pages_follow(pages, by_path(listing(nodes, root, path, scope)->Found_0), limit),
    ensures
        ({
            let all = by_path(listing(nodes, root, path, scope)->Found_0);
            let seen = entries_of(pages);
            &&& all.to_multiset() == listing(nodes, root, path, scope)->Found_0.to_multiset()
            &&& seen.len() == all.len()
            &&& forall|i: int| 0 <= i < seen.len() ==> lists(#[trigger] seen[i], all[i])
            &&& forall|i: int, j: int|
                0 <= i < j < seen.len() ==> (#[trigger] seen[i]).path@ != (#[trigger] seen[j]).path@
        }),
{
    let found = listing(nodes, root, path, scope)->Found_0;
    let all = by_path(found);
    lemma_listing_is_distinct(nodes, root, path, scope);
    lemma_sorted_ascends(found);
    lemma_by_path(found);
    lemma_first_pages(pages, all, limit, pages.len());
    assert(pages.take(pages.len() as int) =~= pages);
    let seen = entries_of(pages);
    assert forall|i: int, j: int| 0 <= i < j < seen.len() implies (#[trigger] seen[i]).path@ != (
    #[trigger] seen[j]).path@ by {
        assert(lists(seen[i], all[i]) && lists(seen[j], all[j]));
        assert(lex_lt(all[i].0, all[j].0));
        lemma_lex_irreflexive(all[i].0);
    }
}

} // verus!
