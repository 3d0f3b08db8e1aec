//! How workspaces are stored.
use vstd::prelude::*;

use crate::cbor::{cbor_printed, encode_cbor, lemma_array_tree, lemma_round_trips_writable,
    round_trips, safe_depth, trees, writable, CborTree, CborValue};
use crate::cbor_map::{lemma_text_map_round_trips, text_map, Field, FieldMap};
use crate::store::StoreNode;
use crate::workspace::{copy_hash, EntryView, NodeView, NotesView, TreeView, WorkspaceAnnotations,
    WorkspaceEntry, WorkspaceNode, WorkspaceTree};

verus! {

/// The fields of an entry.
pub open spec fn entry_fields(e: EntryView) -> Seq<Field> {
    let fixed = seq![
        ("name"@, CborTree::Text(e.name)),
        ("kind"@, CborTree::Text(e.kind)),
        ("hash"@, CborTree::Text(e.hash)),
        ("size"@, CborTree::Integer(e.size as i128)),
        ("mode"@, CborTree::Integer(e.mode as i128)),
    ];
    match e.annotations {
        Some(h) => fixed.push(("annotations_hash"@, CborTree::Text(h))),
        None => fixed,
    }
}

pub open spec fn entry_cbor(e: EntryView) -> CborTree {
    CborTree::Mapping(text_map(entry_fields(e)))
}

pub open spec fn entries_cbor(entries: Seq<EntryView>) -> Seq<CborTree> {
    Seq::new(entries.len(), |i: int| entry_cbor(entries[i]))
}

/// The fields of a directory.
pub open spec fn tree_fields(t: TreeView) -> Seq<Field> {
    let fixed = seq![("entries"@, CborTree::Array(entries_cbor(t.entries)))];
    match t.annotations {
        Some(h) => fixed.push(("annotations_hash"@, CborTree::Text(h))),
        None => fixed,
    }
}

/// The fields of notes.
pub open spec fn notes_fields(n: NotesView) -> Seq<Field> {
    Seq::new(n.len(), |i: int| (n[i].0, CborTree::Text(n[i].1)))
}

/// The CBOR form of a stored node.
pub open spec fn node_cbor(n: NodeView) -> CborTree {
    match n {
        NodeView::Tree(t) => CborTree::Mapping(text_map(tree_fields(t))),
        NodeView::Annotations(a) => CborTree::Mapping(text_map(notes_fields(a))),
    }
}

/// The form of a node is read back as it is written.
pub proof fn lemma_node_round_trips(n: NodeView)
    ensures
        round_trips(node_cbor(n), safe_depth()),
        writable(node_cbor(n)),
{
    match n {
        NodeView::Tree(t) => {
            let a = entries_cbor(t.entries);
            assert forall|i: int| 0 <= i < a.len() implies round_trips(#[trigger] a[i], 97) by {
                let f = entry_fields(t.entries[i]);
                assert forall|k: int| 0 <= k < f.len() implies round_trips(
                    (#[trigger] f[k]).1,
                    96,
                ) by {
                    assert(k == 0 || k == 1 || k == 2 || k == 3 || k == 4 || k == 5);
                }
                lemma_text_map_round_trips(f, 96);
            }
            let f = tree_fields(t);
            lemma_shallow(f, CborTree::Array(a), t.annotations);
            lemma_text_map_round_trips(f, 99);
        },
        NodeView::Annotations(a) => {
            let f = notes_fields(a);
            assert forall|k: int| 0 <= k < f.len() implies round_trips(
                (#[trigger] f[k]).1,
                99,
            ) by {}
            lemma_text_map_round_trips(f, 99);
        },
    }
    lemma_round_trips_writable(node_cbor(n), safe_depth());
}

proof fn lemma_deeper(t: CborTree, d: nat, e: nat)
    requires
        round_trips(t, d),
        d <= e,
    ensures
        round_trips(t, e),
    decreases t,
{
    match t {
        CborTree::Array(items) => {
            assert forall|i: int| 0 <= i < items.len() implies round_trips(
                #[trigger] items[i],
                (e - 1) as nat,
            ) by {
                lemma_deeper(items[i], (d - 1) as nat, (e - 1) as nat);
            }
        },
        CborTree::Mapping(m) => {
            assert forall|i: int| 0 <= i < m.len() implies round_trips(
                (#[trigger] m[i]).1,
                (e - 1) as nat,
            ) by {
                lemma_deeper(m[i].1, (d - 1) as nat, (e - 1) as nat);
            }
        },
        _ => {},
    }
}

proof fn lemma_shallow(f: Seq<Field>, list: CborTree, note: Option<Seq<char>>)
    requires
        list is Array,
        forall|i: int|
            0 <= i < list->Array_0.len() ==> round_trips(#[trigger] list->Array_0[i], 97),
        f == match note {
            Some(h) => seq![("entries"@, list)].push(("annotations_hash"@, CborTree::Text(h))),
            None => seq![("entries"@, list)],
        },
    ensures
        forall|k: int| 0 <= k < f.len() ==> round_trips((#[trigger] f[k]).1, 99),
{
    assert(round_trips(list, 98));
    lemma_deeper(list, 98, 99);
    assert forall|k: int| 0 <= k < f.len() implies round_trips((#[trigger] f[k]).1, 99) by {
        assert(k == 0 || k == 1);
    }
}

fn entry_to_cbor(e: &WorkspaceEntry) -> (r: CborValue)
    ensures
        r@ == entry_cbor(e@),
{
    let mut m = FieldMap::new();
    m.put("name", CborValue::Text(e.name.clone()));
    m.put("kind", CborValue::Text(e.kind.clone()));
    m.put("hash", CborValue::Text(e.hash.as_str().to_owned()));
    m.put("size", CborValue::Integer(e.size as i128));
    m.put("mode", CborValue::Integer(e.mode as i128));
    if let Some(h) = &e.annotations_hash {
        m.put("annotations_hash", CborValue::Text(h.as_str().to_owned()));
    }
    assert(m.fields@ =~= entry_fields(e@));
    m.finish()
}

fn node_to_cbor(n: &WorkspaceNode) -> (r: CborValue)
    ensures
        r@ == node_cbor(n@),
{
    match n {
        WorkspaceNode::Tree(t) => {
            let mut items: Vec<CborValue> = Vec::new();
            let mut i: usize = 0;
            while i < t.entries.len()
                invariant
                    i <= t.entries@.len(),
                    items@.len() == i,
                    forall|k: int|
                        0 <= k < i ==> (#[trigger] items@[k])@ == entry_cbor(t.entries@[k]@),
                decreases t.entries@.len() - i,
            {
                items.push(entry_to_cbor(&t.entries[i]));
                i += 1;
            }
            let list = CborValue::Array(items);
            proof {
                lemma_array_tree(list);
                assert(trees(items@) =~= entries_cbor(t@.entries));
            }
            let mut m = FieldMap::new();
            m.put("entries", list);
            if let Some(h) = &t.annotations_hash {
                m.put("annotations_hash", CborValue::Text(h.as_str().to_owned()));
            }
            assert(m.fields@ =~= tree_fields(t@));
            m.finish()
        },
        WorkspaceNode::Annotations(a) => {
            let mut m = FieldMap::new();
            let mut i: usize = 0;
            assert(m.fields@ =~= notes_fields(a@).take(0));
            while i < a.items.len()
                invariant
                    i <= a.items@.len(),
                    m.wf(),
                    m.fields@ == notes_fields(a@).take(i as int),
                decreases a.items@.len() - i,
            {
                m.put(a.items[i].0.as_str(), CborValue::Text(a.items[i].1.as_str().to_owned()));
                assert(m.fields@ =~= notes_fields(a@).take(i + 1));
                i += 1;
            }
            assert(m.fields@ =~= notes_fields(a@));
            m.finish()
        },
    }
}

impl WorkspaceTree {
    /// A copy of the directory.
    pub fn copied(&self) -> (r: Self)
        ensures
            r@ == self@,
    {
        let mut entries: Vec<WorkspaceEntry> = Vec::new();
        let mut i: usize = 0;
        while i < self.entries.len()
            invariant
                i <= self.entries@.len(),
                entries@ == self.entries@.take(i as int),
            decreases self.entries@.len() - i,
        {
            entries.push(self.entries[i].copied());
            assert(self.entries@.take(i + 1) =~= self.entries@.take(i as int).push(
                self.entries@[i as int],
            ));
            i += 1;
        }
        assert(self.entries@.take(i as int) =~= self.entries@);
        WorkspaceTree { entries, annotations_hash: copy_hash(&self.annotations_hash) }
    }
}

impl WorkspaceAnnotations {
    /// A copy of the notes.
    pub fn copied(&self) -> (r: Self)
        ensures
            r@ == self@,
    {
        let mut items: Vec<(String, crate::hash::HashRef)> = Vec::new();
        let mut i: usize = 0;
        while i < self.items.len()
            invariant
                i <= self.items@.len(),
                items@ == self.items@.take(i as int),
            decreases self.items@.len() - i,
        {
            items.push((self.items[i].0.clone(), self.items[i].1.clone()));
            assert(self.items@.take(i + 1) =~= self.items@.take(i as int).push(
                self.items@[i as int],
            ));
            i += 1;
        }
        assert(self.items@.take(i as int) =~= self.items@);
        WorkspaceAnnotations { items }
    }
}

impl StoreNode for WorkspaceNode {
    open spec fn encoding(v: NodeView) -> Result<Seq<u8>, Seq<char>> {
        cbor_printed(node_cbor(v))
    }

    fn encode(&self) -> (r: Result<Vec<u8>, String>) {
        let value = node_to_cbor(self);
        proof {
            lemma_node_round_trips(self@);
        }
        encode_cbor(&value)
    }

    fn copied(&self) -> (r: Self) {
        match self {
            WorkspaceNode::Tree(t) => WorkspaceNode::Tree(t.copied()),
            WorkspaceNode::Annotations(a) => WorkspaceNode::Annotations(a.copied()),
        }
    }
}

} // verus!
