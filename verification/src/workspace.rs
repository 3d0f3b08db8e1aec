//! Workspaces: trees of files in the store.
use vstd::prelude::*;
use vstd::utf8::*;

use crate::error::{is_query_error, KernelError};
use crate::hash::HashRef;

use crate::text::{chars_of, join3, str_eq};

pub mod handlers;
pub mod laws;
pub mod list;
pub mod node;
pub mod notes;
pub mod ops;
pub mod pages;
pub mod tree_laws;

verus! {

/// The mode of a file.
pub const MODE_FILE_DEFAULT: u64 = 420;

/// The mode of a file that can be run.
pub const MODE_FILE_EXEC: u64 = 493;

/// The mode of a directory.
pub const MODE_DIR: u64 = 493;

/// A file or a directory in a tree.
#[derive(Debug, PartialEq, Eq)]
pub struct WorkspaceEntry {
    pub name: String,
    pub kind: String,
    pub hash: HashRef,
    pub size: u64,
    pub mode: u64,
    pub annotations_hash: Option<HashRef>,
}

/// The model of an entry.
pub struct EntryView {
    pub name: Seq<char>,
    pub kind: Seq<char>,
    pub hash: Seq<char>,
    pub size: u64,
    pub mode: u64,
    pub annotations: Option<Seq<char>>,
}

pub open spec fn hash_view(h: Option<HashRef>) -> Option<Seq<char>> {
    match h {
        Some(x) => Some(x@),
        None => None,
    }
}

impl View for WorkspaceEntry {
    type V = EntryView;

    open spec fn view(&self) -> EntryView {
        EntryView {
            name: self.name@,
            kind: self.kind@,
            hash: self.hash@,
            size: self.size,
            mode: self.mode,
            annotations: hash_view(self.annotations_hash),
        }
    }
}

/// A copy of an optional reference.
pub fn copy_hash(h: &Option<HashRef>) -> (r: Option<HashRef>)
    ensures
        r == *h,
{
    match h {
        Some(x) => Some(x.clone()),
        None => None,
    }
}

impl WorkspaceEntry {
    /// A copy of the entry.
    pub fn copied(&self) -> (r: Self)
        ensures
            r == *self,
    {
        WorkspaceEntry {
            name: self.name.clone(),
            kind: self.kind.clone(),
            hash: self.hash.clone(),
            size: self.size,
            mode: self.mode,
            annotations_hash: copy_hash(&self.annotations_hash),
        }
    }
}

/// A directory: its entries, and the reference to its annotations.
#[derive(Debug)]
pub struct WorkspaceTree {
    pub entries: Vec<WorkspaceEntry>,
    pub annotations_hash: Option<HashRef>,
}

/// The model of a directory.
#[verifier::ext_equal]
pub struct TreeView {
    pub entries: Seq<EntryView>,
    pub annotations: Option<Seq<char>>,
}

/// The models of entries.
pub open spec fn entries_view(entries: Seq<WorkspaceEntry>) -> Seq<EntryView> {
    Seq::new(entries.len(), |i: int| entries[i]@)
}

impl View for WorkspaceTree {
    type V = TreeView;

    open spec fn view(&self) -> TreeView {
        TreeView {
            entries: entries_view(self.entries@),
            annotations: hash_view(self.annotations_hash),
        }
    }
}

/// Notes on a file or a directory: references by key, in key order.
#[derive(Debug)]
pub struct WorkspaceAnnotations {
    pub items: Vec<(String, HashRef)>,
}

/// The model of notes.
pub type NotesView = Seq<(Seq<char>, Seq<char>)>;

impl View for WorkspaceAnnotations {
    type V = NotesView;

    open spec fn view(&self) -> NotesView {
        Seq::new(self.items@.len(), |i: int| (self.items@[i].0@, self.items@[i].1@))
    }
}

/// What a workspace keeps in the store.
#[derive(Debug)]
pub enum WorkspaceNode {
    Tree(WorkspaceTree),
    Annotations(WorkspaceAnnotations),
}

/// The model of a stored node.
pub enum NodeView {
    Tree(TreeView),
    Annotations(NotesView),
}

impl View for WorkspaceNode {
    type V = NodeView;

    open spec fn view(&self) -> NodeView {
        match *self {
            WorkspaceNode::Tree(t) => NodeView::Tree(t@),
            WorkspaceNode::Annotations(a) => NodeView::Annotations(a@),
        }
    }
}

/// A query error.
pub fn query_error(text: &str) -> (r: KernelError)
    ensures
        is_query_error(r, text@),
{
    KernelError::Query(text.to_owned())
}

/// Whether a character may stand in names.
pub open spec fn url_safe(c: char) -> bool {
    ||| 'a' <= c && c <= 'z'
    ||| 'A' <= c && c <= 'Z'
    ||| '0' <= c && c <= '9'
    ||| c == '.'
    ||| c == '_'
    ||| c == '~'
    ||| c == '-'
}

pub fn is_url_safe_char(ch: char) -> (r: bool)
    ensures
        r == url_safe(ch),
{
    ('a' <= ch && ch <= 'z') || ('A' <= ch && ch <= 'Z') || ('0' <= ch && ch <= '9') || ch == '.'
        || ch == '_' || ch == '~' || ch == '-'
}

pub open spec fn all_url_safe(s: Seq<char>) -> bool {
    forall|i: int| 0 <= i < s.len() ==> url_safe(#[trigger] s[i])
}

fn check_chars(s: &str) -> (r: bool)
    ensures
        r == all_url_safe(s@),
{
    let cs = chars_of(s);
    let mut i: usize = 0;
    while i < cs.len()
        invariant
            i <= cs@.len(),
            cs@ == s@,
            forall|k: int| 0 <= k < i ==> url_safe(#[trigger] s@[k]),
        decreases cs@.len() - i,
    {
        if !is_url_safe_char(cs[i]) {
            assert(!url_safe(s@[i as int]));
            return false;
        }
        i += 1;
    }
    true
}

/// Whether a text can name a workspace.
pub open spec fn is_workspace_name(name: Seq<char>) -> bool {
    name.len() > 0 && all_url_safe(name)
}

/// Refuses what cannot name a workspace; a slash is among what may not occur.
pub fn validate_workspace_name(name: &str) -> (r: Result<(), KernelError>)
    ensures
        match r {
            Ok(_) => is_workspace_name(name@),
            Err(e) => !is_workspace_name(name@) && is_query_error(e, "invalid workspace name"@),
        },
{
    if name.unicode_len() == 0 || !check_chars(name) {
        return Err(query_error("invalid workspace name"));
    }
    Ok(())
}

/// Whether a text can name a file or a directory.
pub open spec fn is_segment(s: Seq<char>) -> bool {
    s.len() > 0 && s != "."@ && s != ".."@ && all_url_safe(s)
}

pub fn validate_path_segment(segment: &str) -> (r: Result<(), KernelError>)
    ensures
        match r {
            Ok(_) => is_segment(segment@),
            Err(e) => !is_segment(segment@) && is_query_error(e, "invalid path segment"@),
        },
{
    if segment.unicode_len() == 0 || str_eq(segment, ".") || str_eq(segment, "..") || !check_chars(
        segment,
    ) {
        return Err(query_error("invalid path segment"));
    }
    Ok(())
}

/// The position of the first slash, or the length.
pub open spec fn slash_at(s: Seq<char>) -> int
    decreases s.len(),
{
    if s.len() == 0 {
        0
    } else if s[0] == '/' {
        0
    } else {
        1 + slash_at(s.drop_first())
    }
}

pub proof fn lemma_slash_at(s: Seq<char>)
    ensures
        0 <= slash_at(s) <= s.len(),
        slash_at(s) < s.len() ==> s[slash_at(s)] == '/',
        forall|i: int| 0 <= i < slash_at(s) ==> #[trigger] s[i] != '/',
    decreases s.len(),
{
    if s.len() > 0 && s[0] != '/' {
        lemma_slash_at(s.drop_first());
        assert forall|i: int| 0 <= i < slash_at(s) implies #[trigger] s[i] != '/' by {
            if i > 0 {
                assert(s.drop_first()[i - 1] == s[i]);
            }
        }
    }
}

/// The position of the first slash is the one before which there is none.
proof fn lemma_slash_is(s: Seq<char>, k: int)
    requires
        0 <= k <= s.len(),
        k < s.len() ==> s[k] == '/',
        forall|i: int| 0 <= i < k ==> #[trigger] s[i] != '/',
    ensures
        slash_at(s) == k,
{
    lemma_slash_at(s);
    if slash_at(s) < k {
        assert(s[slash_at(s)] != '/');
    }
    if k < slash_at(s) {
        assert(s[k] != '/');
    }
}

/// The parts of a text between slashes.
pub open spec fn parts(s: Seq<char>) -> Seq<Seq<char>>
    decreases s.len(),
    via parts_shrink
{
    let i = slash_at(s);
    if i >= s.len() {
        seq![s]
    } else {
        seq![s.take(i)] + parts(s.skip(i + 1))
    }
}

#[via_fn]
proof fn parts_shrink(s: Seq<char>) {
    lemma_slash_at(s);
}

/// Texts with slashes between them.
pub open spec fn joined(segments: Seq<Seq<char>>) -> Seq<char>
    decreases segments.len(),
{
    if segments.len() == 0 {
        Seq::empty()
    } else if segments.len() == 1 {
        segments[0]
    } else {
        segments[0] + "/"@ + joined(segments.drop_first())
    }
}

/// The names on a path, or why it is none.
pub open spec fn path_segments(path: Seq<char>) -> Result<Seq<Seq<char>>, Seq<char>> {
    if path.len() == 0 || path[0] == '/' || path.last() == '/' {
        Err("invalid path"@)
    } else if forall|i: int| 0 <= i < parts(path).len() ==> is_segment(#[trigger] parts(path)[i]) {
        Ok(parts(path))
    } else {
        Err("invalid path segment"@)
    }
}

/// The models of texts.
pub open spec fn texts(v: Seq<String>) -> Seq<Seq<char>> {
    Seq::new(v.len(), |i: int| v[i]@)
}

/// Splits a path into its names.
pub fn validate_path(path: &str) -> (r: Result<Vec<String>, KernelError>)
    ensures
        match (r, path_segments(path@)) {
            (Ok(v), Ok(t)) => texts(v@) == t,
            (Err(e), Err(t)) => is_query_error(e, t),
            _ => false,
        },
{
    let cs = chars_of(path);
    let n: usize = cs.len();
    if n == 0 || cs[0] == '/' || cs[n - 1] == '/' {
        return Err(query_error("invalid path"));
    }
    let mut out: Vec<String> = Vec::new();
    let mut start: usize = 0;
    let mut i: usize = 0;
    let ghost all = parts(path@);
    proof {
        assert(path@.skip(0) =~= path@);
        assert(texts(out@) + parts(path@) =~= parts(path@));
    }
    while i < n
        invariant
            start <= i <= n,
            n == cs@.len(),
            cs@ == path@,
            n > 0,
            all == parts(path@),
            path@.len() > 0 && path@[0] != '/' && path@.last() != '/',
            all == texts(out@) + parts(path@.skip(start as int)),
            forall|k: int| start <= k < i ==> #[trigger] path@[k] != '/',
            forall|k: int| 0 <= k < out@.len() ==> is_segment((#[trigger] out@[k])@),
        decreases n - i,
    {
        if cs[i] == '/' {
            let ghost rest = path@.skip(start as int);
            proof {
                assert forall|k: int| 0 <= k < i - start implies #[trigger] rest[k] != '/' by {
                    assert(path@[start + k] != '/');
                }
                lemma_slash_is(rest, i - start);
            }
            let seg = path.substring_char(start, i);
            assert(seg@ =~= rest.take(i - start));
            assert(all[out@.len() as int] == seg@);
            match validate_path_segment(seg) {
                Ok(_) => {},
                Err(e) => {
                    return Err(e);
                },
            }
            let ghost before = texts(out@);
            out.push(seg.to_owned());
            proof {
                assert(texts(out@) =~= before.push(seg@));
                assert(rest.skip(i - start + 1) =~= path@.skip(i + 1));
                assert(all =~= texts(out@) + parts(path@.skip(i + 1)));
            }
            start = i + 1;
        }
        i += 1;
    }
    let ghost rest = path@.skip(start as int);
    proof {
        assert forall|k: int| 0 <= k < rest.len() implies #[trigger] rest[k] != '/' by {
            assert(path@[start + k] != '/');
        }
        lemma_slash_is(rest, rest.len() as int);
    }
    let seg = path.substring_char(start, n);
    assert(seg@ =~= rest);
    assert(all[out@.len() as int] == seg@);
    match validate_path_segment(seg) {
        Ok(_) => {},
        Err(e) => {
            return Err(e);
        },
    }
    let ghost before = texts(out@);
    out.push(seg.to_owned());
    assert(texts(out@) =~= before.push(seg@));
    assert(texts(out@) =~= all);
    proof {
        assert forall|k: int| 0 <= k < all.len() implies is_segment(#[trigger] all[k]) by {
            assert(all[k] == out@[k]@);
        }
    }
    Ok(out)
}

/// A name under a directory.
pub open spec fn path_under(base: Seq<char>, name: Seq<char>) -> Seq<char> {
    if base.len() == 0 {
        name
    } else {
        base + "/"@ + name
    }
}

pub fn join_path(base: &str, name: &str) -> (r: String)
    ensures
        r@ == path_under(base@, name@),
{
    if base.unicode_len() == 0 {
        name.to_owned()
    } else {
        join3(base, "/", name)
    }
}

/// Names with slashes between them.
pub fn join_segments(segments: &Vec<String>) -> (r: String)
    ensures
        r@ == joined(texts(segments@)),
{
    let ghost all = texts(segments@);
    let n: usize = segments.len();
    if n == 0 {
        return String::new();
    }
    let mut i: usize = n - 1;
    let mut out = segments[n - 1].clone();
    assert(all.skip(i as int) =~= seq![all[n - 1]]);
    while i > 0
        invariant
            i < n,
            n == segments@.len(),
            all == texts(segments@),
            out@ == joined(all.skip(i as int)),
        decreases i,
    {
        i -= 1;
        assert(all.skip(i as int).drop_first() =~= all.skip(i + 1));
        assert(all.skip(i as int)[0] == all[i as int]);
        out = join3(segments[i].as_str(), "/", out.as_str());
    }
    assert(all.skip(0) =~= all);
    out
}

proof fn lemma_parts_nonempty(s: Seq<char>)
    ensures
        parts(s).len() > 0,
{
    lemma_slash_at(s);
}

/// Joining the parts of a text gives the text back.
pub proof fn lemma_parts_join(s: Seq<char>)
    ensures
        joined(parts(s)) == s,
    decreases s.len(),
{
    lemma_slash_at(s);
    let i = slash_at(s);
    if i < s.len() {
        let rest = s.skip(i + 1);
        lemma_parts_join(rest);
        lemma_parts_nonempty(rest);
        let p = seq![s.take(i)] + parts(rest);
        assert(p.drop_first() =~= parts(rest));
        reveal_strlit("/");
        assert(s.take(i) + "/"@ + rest =~= s);
    }
}

/// Splitting joined names gives the names back: a path stands for exactly one list of names.
pub proof fn lemma_join_parts(segments: Seq<Seq<char>>)
    requires
        segments.len() > 0,
        forall|i: int| 0 <= i < segments.len() ==> is_segment(#[trigger] segments[i]),
    ensures
        parts(joined(segments)) == segments,
    decreases segments.len(),
{
    let first = segments[0];
    assert(is_segment(segments[0]));
    assert forall|i: int| 0 <= i < first.len() implies #[trigger] first[i] != '/' by {
        assert(url_safe(first[i]));
    }
    let s = joined(segments);
    if segments.len() == 1 {
        lemma_slash_is(s, s.len() as int);
        assert(parts(s) =~= segments);
    } else {
        reveal_strlit("/");
        let rest = segments.drop_first();
        assert forall|i: int| 0 <= i < rest.len() implies is_segment(#[trigger] rest[i]) by {
            assert(is_segment(segments[i + 1]));
        }
        lemma_join_parts(rest);
        assert forall|i: int| 0 <= i < first.len() implies #[trigger] s[i] != '/' by {
            assert(s[i] == first[i]);
        }
        assert(s[first.len() as int] == '/');
        lemma_slash_is(s, first.len() as int);
        assert(s.take(first.len() as int) =~= first);
        assert(s.skip(first.len() as int + 1) =~= joined(rest));
        assert(parts(s) =~= seq![first] + rest);
        assert(seq![first] + rest =~= segments);
    }
}

/// A path that is accepted is the one that its names join to.
pub proof fn lemma_accepted_path_joins(path: Seq<char>)
    ensures
        path_segments(path) matches Ok(t) ==> joined(t) == path && t.len() > 0,
{
    lemma_parts_join(path);
    lemma_parts_nonempty(path);
}

} // verus!
