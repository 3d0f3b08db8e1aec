//! An index in memory is always read and written.
use vstd::prelude::*;

use crate::cell_index::laws::index_ok;
use crate::cell_index::{byte_at, cell_digest, cells_fail, child_index, delete_fails, get_fails,
    insert_fails, lemma_child_index, refused, split_fails, CellNode, CellNodeView, CellSt, MetaView};
use crate::store::{lemma_memory_gives, lemma_memory_takes, write_fails, MemStore, Store, StoreError,
    StoreNode};

verus! {

/// Whether every node stands under the digest of its bytes.
pub open spec fn well_kept(nodes: Map<Seq<u8>, CellNodeView>) -> bool {
    forall|k: Seq<u8>| #[trigger]
        nodes.contains_key(k) ==> CellNode::encoding(nodes[k]) is Ok && cell_digest(nodes[k]) == k
}

/// Whether every node has bytes.
pub open spec fn nodes_have_bytes() -> bool {
    forall|v: CellNodeView| #[trigger] CellNode::encoding(v) is Ok
}

/// A key is looked up without an error in a well-formed index in memory.
pub proof fn lemma_memory_is_read(
    store: MemStore<CellNode>,
    node: Seq<u8>,
    key: Seq<u8>,
    depth: nat,
    e: StoreError,
)
    requires
        index_ok(store.nodes(), node, depth),
        well_kept(store.nodes()),
    ensures
        !get_fails(store, node, key, depth, e),
    decreases 33 - depth,
{
    lemma_memory_gives(store, node, e);
    match store.nodes()[node] {
        CellNodeView::Leaf(_) => {},
        CellNodeView::Branch(c) => {
            let i = child_index(c, key[depth as int]);
            lemma_child_index(c, key[depth as int]);
            if i < c.len() {
                lemma_memory_is_read(store, c[i].1, key, depth + 1, e);
            }
        },
    }
}

/// The cells of a well-formed index in memory are listed without an error.
pub proof fn lemma_memory_is_listed(
    store: MemStore<CellNode>,
    node: Seq<u8>,
    depth: nat,
    fuel: nat,
    e: StoreError,
)
    requires
        index_ok(store.nodes(), node, depth),
        well_kept(store.nodes()),
        depth + fuel >= 33,
    ensures
        !cells_fail(store, node, fuel, e),
    decreases 33 - depth,
{
    lemma_memory_gives(store, node, e);
    match store.nodes()[node] {
        CellNodeView::Leaf(_) => {},
        CellNodeView::Branch(c) => {
            assert forall|i: int| 0 <= i < c.len() implies !cells_fail(
                store,
                (#[trigger] c[i]).1,
                (fuel - 1) as nat,
                e,
            ) by {
                lemma_memory_is_listed(store, c[i].1, depth + 1, (fuel - 1) as nat, e);
            }
        },
    }
}

proof fn lemma_not_refused(
    st: CellSt,
    v: CellNodeView,
    e: StoreError,
    left: Map<Seq<u8>, CellNodeView>,
)
    requires
        nodes_have_bytes(),
    ensures
        !refused::<MemStore<CellNode>>(st, v, e, left),
{
    assert(CellNode::encoding(v) is Ok);
    assert forall|s: MemStore<CellNode>| !#[trigger] write_fails::<CellNode, MemStore<CellNode>>(
        s,
        v,
        e,
    ) by {
        lemma_memory_takes(s, v, e);
    }
}

proof fn lemma_none_refused(e: StoreError, left: Map<Seq<u8>, CellNodeView>)
    requires
        nodes_have_bytes(),
    ensures
        forall|st: CellSt, v: CellNodeView| !#[trigger]
            refused::<MemStore<CellNode>>(st, v, e, left),
{
    assert forall|st: CellSt, v: CellNodeView| !#[trigger]
        refused::<MemStore<CellNode>>(st, v, e, left) by {
        lemma_not_refused(st, v, e, left);
    }
}

/// A cell is put into a well-formed index in memory without an error.
pub proof fn lemma_memory_is_written(
    store: MemStore<CellNode>,
    st: CellSt,
    node: Seq<u8>,
    meta: MetaView,
    depth: nat,
    e: StoreError,
    left: Map<Seq<u8>, CellNodeView>,
)
    requires
        st.nodes == store.nodes(),
        index_ok(store.nodes(), node, depth),
        well_kept(store.nodes()),
        nodes_have_bytes(),
    ensures
        !insert_fails(store, st, node, meta, depth, e, left),
    decreases 33 - depth,
{
    lemma_memory_gives(store, node, e);
    lemma_none_refused(e, left);
    match st.nodes[node] {
        CellNodeView::Leaf(m) => {
            assert(!split_fails::<MemStore<CellNode>>(st, m.push(meta), depth, e, left));
        },
        CellNodeView::Branch(c) => {
            let byte = byte_at(meta.key_hash, depth);
            let i = child_index(c, byte);
            lemma_child_index(c, byte);
            if i < c.len() {
                lemma_memory_is_written(store, st, c[i].1, meta, depth + 1, e, left);
            }
        },
    }
}

/// A key is taken out of a well-formed index in memory without an error.
pub proof fn lemma_memory_is_deleted(
    store: MemStore<CellNode>,
    st: CellSt,
    node: Seq<u8>,
    key: Seq<u8>,
    depth: nat,
    e: StoreError,
    left: Map<Seq<u8>, CellNodeView>,
)
    requires
        st.nodes == store.nodes(),
        index_ok(store.nodes(), node, depth),
        well_kept(store.nodes()),
        nodes_have_bytes(),
    ensures
        !delete_fails(store, st, node, key, depth, e, left),
    decreases 33 - depth,
{
    lemma_memory_gives(store, node, e);
    lemma_none_refused(e, left);
    match st.nodes[node] {
        CellNodeView::Leaf(_) => {},
        CellNodeView::Branch(c) => {
            let i = child_index(c, key[depth as int]);
            lemma_child_index(c, key[depth as int]);
            if i < c.len() {
                lemma_memory_is_deleted(store, st, c[i].1, key, depth + 1, e, left);
            }
        },
    }
}

} // verus!
