//! What deleting from an index comes to as a whole, and that old roots stay readable.
use vstd::prelude::*;

use crate::cell_index::laws::{grows, has_cell, index_ok, lemma_child_at, lemma_deleted_is_gone,
    lemma_filter_keeps, lemma_grows, lemma_put, lemma_sorted, lemma_split_children,
    lemma_upsert_is_read, parts_hold};
use crate::cell_index::listing::{begins, lemma_delete_keeps_placed, lemma_longer,
    lemma_upsert_keeps_placed, placed};
use crate::cell_index::{bucket, by_byte, byte_at, cell_at, cell_digest, cell_put, child_index,
    deleted, find_meta, inserted, key_deleted, lemma_child_index, lemma_meta_index, meta_index,
    split_children, split_leaf, CellNodeView, CellSt, MetaView, LEAF_MAX};

verus! {

/// After a cell has been put into a well-formed index, the root that it was put into still has what
/// it had, provided that no digest was taken by other content.
pub proof fn lemma_upsert_keeps_old_root(st: CellSt, root: Seq<u8>, meta: MetaView)
    requires
        index_ok(st.nodes, root, 0),
        meta.key_hash.len() == 32,
        inserted(st, root, meta, 0) matches Some(done) ==> done.1.clean,
    ensures
        inserted(st, root, meta, 0) matches Some((_, after)) && index_ok(after.nodes, root, 0)
            && forall|key: Seq<u8>| #[trigger]
            cell_at(after.nodes, root, key, 0) == cell_at(st.nodes, root, key, 0),
{
    lemma_upsert_is_read(st, root, meta, 0);
    let after = inserted(st, root, meta, 0)->Some_0.1;
    lemma_grows(st.nodes, after.nodes, root, Seq::empty(), 0);
    assert forall|key: Seq<u8>| #[trigger]
        cell_at(after.nodes, root, key, 0) == cell_at(st.nodes, root, key, 0) by {
        lemma_grows(st.nodes, after.nodes, root, key, 0);
    }
}

proof fn lemma_all_kept(s: Seq<MetaView>, keep: spec_fn(MetaView) -> bool)
    requires
        forall|i: int| 0 <= i < s.len() ==> keep(#[trigger] s[i]),
    ensures
        s.filter(keep) == s,
    decreases s.len(),
{
    reveal(Seq::filter);
    if s.len() > 0 {
        assert(keep(s[s.len() - 1]));
        assert forall|i: int| 0 <= i < s.drop_last().len() implies keep(
            #[trigger] s.drop_last()[i],
        ) by {
            assert(s.drop_last()[i] == s[i]);
        }
        lemma_all_kept(s.drop_last(), keep);
        assert(s.drop_last().push(s.last()) =~= s);
    } else {
        assert(s.filter(keep) =~= s);
    }
}

proof fn lemma_none_kept(s: Seq<MetaView>, keep: spec_fn(MetaView) -> bool)
    requires
        forall|i: int| 0 <= i < s.len() ==> !keep(#[trigger] s[i]),
    ensures
        s.filter(keep).len() == 0,
    decreases s.len(),
{
    reveal(Seq::filter);
    if s.len() > 0 {
        assert(!keep(s[s.len() - 1]));
        assert forall|i: int| 0 <= i < s.drop_last().len() implies !keep(
            #[trigger] s.drop_last()[i],
        ) by {
            assert(s.drop_last()[i] == s[i]);
        }
        lemma_none_kept(s.drop_last(), keep);
    }
}

/// Taking a key out of a well-formed index says whether the key had a cell; under the new root the
/// key has none, every other key has what it had, and under the old root every key does; where
/// nothing was taken out the root stays, if it is the digest of its node. This is provided that no
/// digest was taken by other content.
pub proof fn lemma_key_deleted(st: CellSt, root: Seq<u8>, key: Seq<u8>)
    requires
        index_ok(st.nodes, root, 0),
        key.len() == 32,
        st.clean,
        key_deleted(st, root, key) matches Some(done) ==> done.2.clean,
    ensures
        key_deleted(st, root, key) matches Some((next, gone, after)) && {
            &&& gone <==> has_cell(cell_at(st.nodes, root, key, 0))
            &&& index_ok(after.nodes, next, 0)
            &&& cell_at(after.nodes, next, key, 0) == Some(None::<MetaView>)
            &&& forall|k: Seq<u8>|
                k.len() == 32 && k != key ==> #[trigger] cell_at(after.nodes, next, k, 0)
                    == cell_at(st.nodes, root, k, 0)
            &&& forall|k: Seq<u8>| #[trigger]
                cell_at(after.nodes, root, k, 0) == cell_at(st.nodes, root, k, 0)
            &&& !gone && cell_digest(st.nodes[root]) == root ==> next == root
        },
{
    let leaf = CellNodeView::Leaf(Seq::empty());
    if deleted(st, root, key, 0) is Some {
        let (left, _, mid) = deleted(st, root, key, 0)->Some_0;
        if left is None {
            lemma_put(mid, leaf);
        }
    }
    lemma_deleted_is_gone(st, root, key, 0);
    let (left, gone, mid) = deleted(st, root, key, 0)->Some_0;
    let (next, _, after) = key_deleted(st, root, key)->Some_0;
    assert(grows(st.nodes, after.nodes));
    assert(find_meta(Seq::empty(), key) is None);
    assert forall|k: Seq<u8>| k.len() == 32 && k != key implies #[trigger] cell_at(
        after.nodes,
        next,
        k,
        0,
    ) == cell_at(st.nodes, root, k, 0) by {
        let was = cell_at(st.nodes, root, k, 0);
        assert(find_meta(Seq::empty(), k) is None);
    }
    assert forall|k: Seq<u8>| #[trigger]
        cell_at(after.nodes, root, k, 0) == cell_at(st.nodes, root, k, 0) by {
        lemma_grows(st.nodes, after.nodes, root, k, 0);
    }
    if !gone && cell_digest(st.nodes[root]) == root {
        match st.nodes[root] {
            CellNodeView::Leaf(m) => {
                let keep = |x: MetaView| x.key_hash != key;
                lemma_filter_keeps(m, keep);
                lemma_all_kept(m, keep);
                if m.len() == 0 {
                    assert(m =~= Seq::empty());
                }
            },
            CellNodeView::Branch(_) => {},
        }
    }
}

/// Whether no branch is without children and no leaf below a branch is without cells; `below` says
/// whether the node is below a branch.
pub open spec fn full(
    nodes: Map<Seq<u8>, CellNodeView>,
    node: Seq<u8>,
    depth: nat,
    below: bool,
) -> bool
    decreases 33 - depth,
{
    depth <= 32 && nodes.contains_key(node) && match nodes[node] {
        CellNodeView::Leaf(m) => below ==> m.len() > 0,
        CellNodeView::Branch(c) => depth < 32 && c.len() > 0 && forall|i: int|
            0 <= i < c.len() ==> full(nodes, (#[trigger] c[i]).1, depth + 1, true),
    }
}

/// The empty index is full.
pub proof fn lemma_empty_is_full(nodes: Map<Seq<u8>, CellNodeView>, node: Seq<u8>)
    requires
        nodes.contains_key(node),
        nodes[node] == CellNodeView::Leaf(Seq::empty()),
    ensures
        full(nodes, node, 0, false),
{
}

proof fn lemma_full_grows(
    a: Map<Seq<u8>, CellNodeView>,
    b: Map<Seq<u8>, CellNodeView>,
    node: Seq<u8>,
    depth: nat,
    below: bool,
)
    requires
        grows(a, b),
        full(a, node, depth, below),
    ensures
        full(b, node, depth, below),
    decreases 33 - depth,
{
    assert(b.contains_key(node));
    match a[node] {
        CellNodeView::Leaf(_) => {},
        CellNodeView::Branch(c) => {
            assert forall|i: int| 0 <= i < c.len() implies full(
                b,
                (#[trigger] c[i]).1,
                depth + 1,
                true,
            ) by {
                lemma_full_grows(a, b, c[i].1, depth + 1, true);
            }
        },
    }
}

proof fn lemma_split_full(st: CellSt, s: Seq<MetaView>, depth: nat)
    requires
        depth < 32,
        s.len() > 0,
        split_leaf(st, s, depth).1.clean,
    ensures
        full(split_leaf(st, s, depth).1.nodes, split_leaf(st, s, depth).0, depth, true),
{
    let (c, mid) = split_children(st, s, depth, 256);
    let node = CellNodeView::Branch(c);
    let nodes = cell_put(mid, node).nodes;
    lemma_put(mid, node);
    lemma_split_children(st, s, depth, 256);
    assert(parts_hold(c, mid.nodes, s, depth, 256));
    assert forall|i: int| 0 <= i < c.len() implies full(
        nodes,
        (#[trigger] c[i]).1,
        depth + 1,
        true,
    ) by {
        assert(nodes.contains_key(c[i].1));
        assert(nodes[c[i].1] == CellNodeView::Leaf(bucket(s, depth, c[i].0)));
    }
    let b = byte_at(s[0].key_hash, depth);
    let keep = |m: MetaView| byte_at(m.key_hash, depth) == b;
    assert(bucket(s, depth, b).len() > 0) by {
        if s.filter(keep).len() == 0 {
            lemma_first_kept(s, keep);
        }
    }
    assert(c.contains((b, cell_digest(CellNodeView::Leaf(bucket(s, depth, b))))));
}

proof fn lemma_first_kept(s: Seq<MetaView>, keep: spec_fn(MetaView) -> bool)
    requires
        s.len() > 0,
        keep(s[0]),
    ensures
        s.filter(keep).len() > 0,
    decreases s.len(),
{
    reveal(Seq::filter);
    if s.len() > 1 {
        assert(s.drop_last()[0] == s[0]);
        lemma_first_kept(s.drop_last(), keep);
    } else {
        assert(s.last() == s[0]);
    }
}

/// After a cell has been put into an index, the index is full, provided that no digest was taken by
/// other content.
pub proof fn lemma_upsert_keeps_full(
    st: CellSt,
    node: Seq<u8>,
    meta: MetaView,
    prefix: Seq<u8>,
    below: bool,
)
    requires
        placed(st.nodes, node, prefix),
        full(st.nodes, node, prefix.len(), below),
        begins(meta, prefix),
        inserted(st, node, meta, prefix.len()) matches Some(done) ==> done.1.clean,
    ensures
        inserted(st, node, meta, prefix.len()) matches Some((root, after)) && full(
            after.nodes,
            root,
            prefix.len(),
            true,
        ),
    decreases 33 - prefix.len(),
{
    let depth = prefix.len();
    lemma_upsert_keeps_placed(st, node, meta, prefix);
    match st.nodes[node] {
        CellNodeView::Leaf(m) => {
            lemma_meta_index(m, meta.key_hash);
            let i = meta_index(m, meta.key_hash);
            if i < m.len() {
                lemma_put(st, CellNodeView::Leaf(m.update(i, meta)));
            } else if m.len() + 1 > LEAF_MAX && depth < 32 {
                lemma_split_full(st, m.push(meta), depth);
            } else {
                lemma_put(st, CellNodeView::Leaf(m.push(meta)));
            }
        },
        CellNodeView::Branch(c) => {
            let byte = byte_at(meta.key_hash, depth);
            let i = child_index(c, byte);
            lemma_child_index(c, byte);
            lemma_longer(meta, prefix);
            if i < c.len() {
                let (child, mid) = inserted(st, c[i].1, meta, depth + 1)->Some_0;
                let next = c.update(i, (c[i].0, child));
                if inserted(st, c[i].1, meta, depth + 1) is Some {
                    lemma_put(mid, CellNodeView::Branch(next));
                }
                assert(prefix.push(c[i].0).len() == depth + 1);
                lemma_upsert_keeps_placed(st, c[i].1, meta, prefix.push(c[i].0));
                lemma_upsert_keeps_full(st, c[i].1, meta, prefix.push(c[i].0), true);
                let nodes = cell_put(mid, CellNodeView::Branch(next)).nodes;
                assert forall|j: int| 0 <= j < next.len() implies full(
                    nodes,
                    (#[trigger] next[j]).1,
                    depth + 1,
                    true,
                ) by {
                    if j != i {
                        assert(next[j] == c[j]);
                        lemma_full_grows(st.nodes, nodes, c[j].1, depth + 1, true);
                    } else {
                        lemma_full_grows(mid.nodes, nodes, child, depth + 1, true);
                    }
                }
            } else {
                let leaf = CellNodeView::Leaf(seq![meta]);
                let mid = cell_put(st, leaf);
                let raw = c.push((byte, cell_digest(leaf)));
                let next = by_byte(raw);
                lemma_put(mid, CellNodeView::Branch(next));
                lemma_put(st, leaf);
                let nodes = cell_put(mid, CellNodeView::Branch(next)).nodes;
                lemma_sorted(raw);
                assert(raw.contains(raw[0]));
                assert(next.contains(raw[0]));
                assert forall|j: int| 0 <= j < next.len() implies full(
                    nodes,
                    (#[trigger] next[j]).1,
                    depth + 1,
                    true,
                ) by {
                    assert(next.contains(next[j]));
                    let x = raw.index_of(next[j]);
                    if x < c.len() {
                        assert(raw[x] == c[x]);
                        lemma_full_grows(st.nodes, nodes, c[x].1, depth + 1, true);
                    }
                }
            }
        },
    }
}

/// After a key has been taken out of an index, what is left of the index is full, provided that no
/// digest was taken by other content.
pub proof fn lemma_delete_keeps_full(
    st: CellSt,
    node: Seq<u8>,
    key: Seq<u8>,
    prefix: Seq<u8>,
    below: bool,
)
    requires
        placed(st.nodes, node, prefix),
        full(st.nodes, node, prefix.len(), below),
        key.len() == 32,
        st.clean,
        deleted(st, node, key, prefix.len()) matches Some(done) ==> done.2.clean,
    ensures
        deleted(st, node, key, prefix.len()) matches Some((root, gone, after)) && (
        root matches Some(h) ==> full(after.nodes, h, prefix.len(), below)),
    decreases 33 - prefix.len(),
{
    let depth = prefix.len();
    lemma_delete_keeps_placed(st, node, key, prefix);
    match st.nodes[node] {
        CellNodeView::Leaf(m) => {
            let rest = m.filter(|x: MetaView| x.key_hash != key);
            if rest.len() > 0 {
                lemma_put(st, CellNodeView::Leaf(rest));
            }
        },
        CellNodeView::Branch(c) => {
            let i = child_index(c, key[depth as int]);
            lemma_child_index(c, key[depth as int]);
            if i < c.len() {
                let inner = deleted(st, c[i].1, key, depth + 1);
                let (child, gone, mid) = inner->Some_0;
                let left = match child {
                    Some(h) => c.update(i, (c[i].0, h)),
                    None => c.remove(i),
                };
                if inner is Some && gone && left.len() > 0 {
                    lemma_put(mid, CellNodeView::Branch(left));
                }
                assert(prefix.push(c[i].0).len() == depth + 1);
                lemma_delete_keeps_placed(st, c[i].1, key, prefix.push(c[i].0));
                lemma_delete_keeps_full(st, c[i].1, key, prefix.push(c[i].0), true);
                if !gone {
                    lemma_full_grows(st.nodes, mid.nodes, node, depth, below);
                } else if left.len() > 0 {
                    let nodes = cell_put(mid, CellNodeView::Branch(left)).nodes;
                    assert forall|j: int| 0 <= j < left.len() implies full(
                        nodes,
                        (#[trigger] left[j]).1,
                        depth + 1,
                        true,
                    ) by {
                        match child {
                            Some(h) => {
                                if j == i {
                                    lemma_full_grows(mid.nodes, nodes, h, depth + 1, true);
                                } else {
                                    assert(left[j] == c[j]);
                                    lemma_full_grows(st.nodes, nodes, c[j].1, depth + 1, true);
                                }
                            },
                            None => {
                                let x = if j < i {
                                    j
                                } else {
                                    j + 1
                                };
                                assert(left[j] == c[x]);
                                lemma_full_grows(st.nodes, nodes, c[x].1, depth + 1, true);
                            },
                        }
                    }
                }
            }
        },
    }
}

/// Whether a key is one that leads to the node that `prefix` leads to.
spec fn leads(key: Seq<u8>, prefix: Seq<u8>) -> bool {
    key.len() == 32 && prefix.len() <= 32 && key.take(prefix.len() as int) == prefix
}

/// Below a branch of a full index some key has a cell.
proof fn lemma_full_has_cell(
    nodes: Map<Seq<u8>, CellNodeView>,
    node: Seq<u8>,
    prefix: Seq<u8>,
) -> (key: Seq<u8>)
    requires
        placed(nodes, node, prefix),
        full(nodes, node, prefix.len(), true),
    ensures
        leads(key, prefix),
        has_cell(cell_at(nodes, node, key, prefix.len())),
    decreases 33 - prefix.len(),
{
    match nodes[node] {
        CellNodeView::Leaf(m) => {
            assert(begins(m[0], prefix));
            lemma_meta_index(m, m[0].key_hash);
            m[0].key_hash
        },
        CellNodeView::Branch(c) => {
            let next = prefix.push(c[0].0);
            assert(placed(nodes, c[0].1, next));
            assert(full(nodes, c[0].1, prefix.len() + 1, true));
            let key = lemma_full_has_cell(nodes, c[0].1, next);
            lemma_step_down(key, prefix, c[0].0);
            lemma_child_at(c, 0);
            key
        },
    }
}

proof fn lemma_step_down(key: Seq<u8>, prefix: Seq<u8>, byte: u8)
    requires
        prefix.len() < 32,
        leads(key, prefix.push(byte)),
    ensures
        leads(key, prefix),
        key[prefix.len() as int] == byte,
{
    let n = prefix.len() as int;
    assert(key.take(n + 1)[n] == byte);
    assert(key.take(n) =~= prefix) by {
        assert forall|i: int| 0 <= i < n implies key[i] == prefix[i] by {
            assert(key.take(n + 1)[i] == prefix.push(byte)[i]);
        }
    }
}

proof fn lemma_only_key(st: CellSt, node: Seq<u8>, key: Seq<u8>, prefix: Seq<u8>, below: bool)
    requires
        placed(st.nodes, node, prefix),
        full(st.nodes, node, prefix.len(), below),
        leads(key, prefix),
        forall|k: Seq<u8>|
            leads(k, prefix) && k != key ==> !has_cell(
                #[trigger] cell_at(st.nodes, node, k, prefix.len()),
            ),
    ensures
        deleted(st, node, key, prefix.len()) matches Some((root, gone, _)) && root is None && (below
            ==> gone),
    decreases 33 - prefix.len(),
{
    let depth = prefix.len();
    match st.nodes[node] {
        CellNodeView::Leaf(m) => {
            let keep = |x: MetaView| x.key_hash != key;
            assert forall|i: int| 0 <= i < m.len() implies !keep(#[trigger] m[i]) by {
                let k = m[i].key_hash;
                assert(begins(m[i], prefix));
                lemma_meta_index(m, k);
                if k != key {
                    assert(!has_cell(cell_at(st.nodes, node, k, depth)));
                }
            }
            lemma_none_kept(m, keep);
        },
        CellNodeView::Branch(c) => {
            let byte = key[depth as int];
            assert forall|j: int| 0 <= j < c.len() implies (#[trigger] c[j]).0 == byte by {
                if c[j].0 != byte {
                    assert(placed(st.nodes, c[j].1, prefix.push(c[j].0)));
                    let k = lemma_full_has_cell(st.nodes, c[j].1, prefix.push(c[j].0));
                    lemma_step_down(k, prefix, c[j].0);
                    lemma_child_at(c, j);
                    assert(!has_cell(cell_at(st.nodes, node, k, depth)));
                }
            }
            assert(c.len() == 1) by {
                if c.len() > 1 {
                    assert(c[0].0 != c[1].0);
                }
            }
            lemma_child_at(c, 0);
            let next = prefix.push(byte);
            assert(c[0].0 == byte);
            assert(key.take(depth as int + 1) =~= next);
            assert forall|k: Seq<u8>| leads(k, next) && k != key implies !has_cell(
                #[trigger] cell_at(st.nodes, c[0].1, k, next.len()),
            ) by {
                lemma_step_down(k, prefix, byte);
                assert(!has_cell(cell_at(st.nodes, node, k, depth)));
            }
            assert(placed(st.nodes, c[0].1, next));
            lemma_only_key(st, c[0].1, key, next, true);
            assert(c.remove(0).len() == 0);
        },
    }
}

/// Where no key but the one that is taken out has a cell, the index is the empty one.
pub proof fn lemma_last_key_leaves_empty(st: CellSt, root: Seq<u8>, key: Seq<u8>)
    requires
        placed(st.nodes, root, Seq::empty()),
        full(st.nodes, root, 0, false),
        key.len() == 32,
        forall|k: Seq<u8>|
            k.len() == 32 && k != key ==> !has_cell(#[trigger] cell_at(st.nodes, root, k, 0)),
    ensures
        key_deleted(st, root, key) matches Some((next, _, _)) && next == cell_digest(
            CellNodeView::Leaf(Seq::empty()),
        ),
{
    let none = Seq::<u8>::empty();
    assert(key.take(0) =~= none);
    lemma_only_key(st, root, key, none, false);
}

} // verus!
