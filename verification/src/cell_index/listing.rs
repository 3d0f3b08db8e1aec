//! An index lists the cells that it has, each once.
use vstd::prelude::*;

use crate::cell_index::laws::{distinct_bytes, grows, index_ok, lemma_child_at, lemma_filter_keeps,
    lemma_put, lemma_sorted, lemma_split_children};
use crate::cell_index::{bucket, by_byte, byte_at, cell_at, cell_digest, cell_put, cells_below,
    cells_of, child_index, deleted, find_meta, inserted, lemma_child_index, lemma_meta_index,
    meta_index, split_children, split_leaf, CellNodeView, CellSt, ChildView, MetaView, LEAF_MAX};

verus! {

/// Whether the cells of a leaf have keys that begin with `prefix`, and none twice.
pub open spec fn leaf_placed(m: Seq<MetaView>, prefix: Seq<u8>) -> bool {
    &&& forall|i: int| 0 <= i < m.len() ==> begins(#[trigger] m[i], prefix)
    &&& forall|i: int, j: int|
        0 <= i < j < m.len() ==> (#[trigger] m[i]).key_hash != (#[trigger] m[j]).key_hash
}

/// Whether the key of a cell is a digest that begins with `prefix`.
pub open spec fn begins(m: MetaView, prefix: Seq<u8>) -> bool {
    m.key_hash.len() == 32 && prefix.len() <= 32 && m.key_hash.take(prefix.len() as int) == prefix
}

/// Whether every cell below a node stands where its key leads to; `prefix` leads to the node.
pub open spec fn placed(nodes: Map<Seq<u8>, CellNodeView>, node: Seq<u8>, prefix: Seq<u8>) -> bool
    decreases 33 - prefix.len(),
{
    prefix.len() <= 32 && nodes.contains_key(node) && match nodes[node] {
        CellNodeView::Leaf(m) => leaf_placed(m, prefix),
        CellNodeView::Branch(c) => prefix.len() < 32 && distinct_bytes(c) && forall|i: int|
            0 <= i < c.len() ==> placed(nodes, (#[trigger] c[i]).1, prefix.push(c[i].0)),
    }
}

/// An index whose cells stand where their keys lead to is well-formed.
pub proof fn lemma_placed_is_ok(
    nodes: Map<Seq<u8>, CellNodeView>,
    node: Seq<u8>,
    prefix: Seq<u8>,
)
    requires
        placed(nodes, node, prefix),
    ensures
        index_ok(nodes, node, prefix.len()),
    decreases 33 - prefix.len(),
{
    match nodes[node] {
        CellNodeView::Leaf(_) => {},
        CellNodeView::Branch(c) => {
            assert forall|i: int| 0 <= i < c.len() implies index_ok(
                nodes,
                (#[trigger] c[i]).1,
                prefix.len() + 1,
            ) by {
                lemma_placed_is_ok(nodes, c[i].1, prefix.push(c[i].0));
            }
        },
    }
}

/// The empty index has its cells where their keys lead to.
pub proof fn lemma_empty_is_placed(nodes: Map<Seq<u8>, CellNodeView>, node: Seq<u8>)
    requires
        nodes.contains_key(node),
        nodes[node] == CellNodeView::Leaf(Seq::empty()),
    ensures
        placed(nodes, node, Seq::empty()),
{
}

proof fn lemma_placed_grows(
    a: Map<Seq<u8>, CellNodeView>,
    b: Map<Seq<u8>, CellNodeView>,
    node: Seq<u8>,
    prefix: Seq<u8>,
)
    requires
        grows(a, b),
        placed(a, node, prefix),
    ensures
        placed(b, node, prefix),
    decreases 33 - prefix.len(),
{
    assert(b.contains_key(node));
    match a[node] {
        CellNodeView::Leaf(_) => {},
        CellNodeView::Branch(c) => {
            assert forall|i: int| 0 <= i < c.len() implies placed(
                b,
                (#[trigger] c[i]).1,
                prefix.push(c[i].0),
            ) by {
                lemma_placed_grows(a, b, c[i].1, prefix.push(c[i].0));
            }
        },
    }
}

/// A filter leaves members, in order.
proof fn lemma_filter_placed(s: Seq<MetaView>, keep: spec_fn(MetaView) -> bool, prefix: Seq<u8>)
    requires
        leaf_placed(s, prefix),
    ensures
        leaf_placed(s.filter(keep), prefix),
        forall|i: int| 0 <= i < s.filter(keep).len() ==> s.contains(#[trigger] s.filter(keep)[i]),
    decreases s.len(),
{
    reveal(Seq::filter);
    if s.len() > 0 {
        let front = s.drop_last();
        assert forall|i: int| 0 <= i < front.len() implies begins(#[trigger] front[i], prefix) by {
            assert(front[i] == s[i]);
        }
        assert forall|i: int, j: int| 0 <= i < j < front.len() implies (
        #[trigger] front[i]).key_hash != (#[trigger] front[j]).key_hash by {
            assert(front[i] == s[i] && front[j] == s[j]);
        }
        lemma_filter_placed(front, keep, prefix);
        let f = front.filter(keep);
        let g = s.filter(keep);
        assert(s.last() == s[s.len() - 1]);
        assert forall|i: int| 0 <= i < f.len() implies s.contains(#[trigger] f[i]) && f[i].key_hash
            != s.last().key_hash by {
            let k = front.index_of(f[i]);
            assert(front[k] == s[k]);
        }
        if keep(s.last()) {
            assert(g == f.push(s.last()));
            assert forall|i: int| 0 <= i < g.len() implies begins(#[trigger] g[i], prefix)
                && s.contains(g[i]) by {
                if i < f.len() {
                    assert(g[i] == f[i]);
                }
            }
            assert forall|i: int, j: int| 0 <= i < j < g.len() implies (#[trigger] g[i]).key_hash
                != (#[trigger] g[j]).key_hash by {
                assert(g[i] == f[i]);
                if j < f.len() {
                    assert(g[j] == f[j]);
                }
            }
        } else {
            assert(g == f);
        }
    } else {
        assert(s.filter(keep) =~= Seq::empty());
    }
}

pub(crate) proof fn lemma_longer(m: MetaView, prefix: Seq<u8>)
    requires
        begins(m, prefix),
        prefix.len() < 32,
    ensures
        begins(m, prefix.push(byte_at(m.key_hash, prefix.len()))),
{
    let d = prefix.len() as int;
    assert(m.key_hash.take(d + 1) =~= m.key_hash.take(d).push(m.key_hash[d]));
}

proof fn lemma_bucket_placed(s: Seq<MetaView>, prefix: Seq<u8>, b: u8)
    requires
        leaf_placed(s, prefix),
        prefix.len() < 32,
    ensures
        leaf_placed(bucket(s, prefix.len(), b), prefix.push(b)),
{
    let depth = prefix.len();
    let keep = |m: MetaView| byte_at(m.key_hash, depth) == b;
    let part = s.filter(keep);
    lemma_filter_placed(s, keep, prefix);
    lemma_filter_keeps(s, keep);
    assert forall|i: int| 0 <= i < part.len() implies begins(
        #[trigger] part[i],
        prefix.push(b),
    ) by {
        assert(keep(part[i]));
        lemma_longer(part[i], prefix);
    }
}

proof fn lemma_split_placed(st: CellSt, s: Seq<MetaView>, prefix: Seq<u8>)
    requires
        prefix.len() < 32,
        leaf_placed(s, prefix),
        split_leaf(st, s, prefix.len()).1.clean,
    ensures
        placed(
            split_leaf(st, s, prefix.len()).1.nodes,
            split_leaf(st, s, prefix.len()).0,
            prefix,
        ),
        grows(st.nodes, split_leaf(st, s, prefix.len()).1.nodes),
{
    let depth = prefix.len();
    let (c, mid) = split_children(st, s, depth, 256);
    let node = CellNodeView::Branch(c);
    let nodes = cell_put(mid, node).nodes;
    lemma_put(mid, node);
    lemma_split_children(st, s, depth, 256);
    assert forall|i: int| 0 <= i < c.len() implies placed(
        nodes,
        (#[trigger] c[i]).1,
        prefix.push(c[i].0),
    ) by {
        lemma_bucket_placed(s, prefix, c[i].0);
        assert(nodes.contains_key(c[i].1));
        assert(nodes[c[i].1] == CellNodeView::Leaf(bucket(s, depth, c[i].0)));
    }
}

/// After a cell has been put into an index, the cells still stand where their keys lead to,
/// provided that no digest was taken by other content.
pub proof fn lemma_upsert_keeps_placed(
    st: CellSt,
    node: Seq<u8>,
    meta: MetaView,
    prefix: Seq<u8>,
)
    requires
        placed(st.nodes, node, prefix),
        begins(meta, prefix),
        inserted(st, node, meta, prefix.len()) matches Some(done) ==> done.1.clean,
    ensures
        inserted(st, node, meta, prefix.len()) matches Some((root, after)) && placed(
            after.nodes,
            root,
            prefix,
        ) && grows(st.nodes, after.nodes),
    decreases 33 - prefix.len(),
{
    let depth = prefix.len();
    match st.nodes[node] {
        CellNodeView::Leaf(m) => {
            let k = meta.key_hash;
            lemma_meta_index(m, k);
            let i = meta_index(m, k);
            let next = if i < m.len() {
                m.update(i, meta)
            } else {
                m.push(meta)
            };
            assert forall|a: int| 0 <= a < next.len() implies begins(
                #[trigger] next[a],
                prefix,
            ) by {
                if a != i {
                    assert(next[a] == m[a]);
                }
            }
            assert forall|a: int, b: int| 0 <= a < b < next.len() implies (
            #[trigger] next[a]).key_hash != (#[trigger] next[b]).key_hash by {
                if a != i {
                    assert(next[a] == m[a]);
                }
                if b != i {
                    assert(next[b] == m[b]);
                }
                if i < m.len() {
                    assert(m[a].key_hash != m[b].key_hash);
                    assert(next[i].key_hash == m[i].key_hash);
                }
            }
            if i >= m.len() && m.len() + 1 > LEAF_MAX && depth < 32 {
                lemma_split_placed(st, next, prefix);
            } else {
                lemma_put(st, CellNodeView::Leaf(next));
            }
        },
        CellNodeView::Branch(c) => {
            let byte = byte_at(meta.key_hash, depth);
            let i = child_index(c, byte);
            lemma_child_index(c, byte);
            lemma_longer(meta, prefix);
            if i < c.len() {
                let (child, mid) = inserted(st, c[i].1, meta, depth + 1)->Some_0;
                let next = c.update(i, (c[i].0, child));
                if inserted(st, c[i].1, meta, depth + 1) is Some {
                    lemma_put(mid, CellNodeView::Branch(next));
                }
                assert(prefix.push(c[i].0).len() == depth + 1);
                lemma_upsert_keeps_placed(st, c[i].1, meta, prefix.push(c[i].0));
                let nodes = cell_put(mid, CellNodeView::Branch(next)).nodes;
                assert forall|j: int| 0 <= j < next.len() implies placed(
                    nodes,
                    (#[trigger] next[j]).1,
                    prefix.push(next[j].0),
                ) by {
                    if j != i {
                        assert(next[j] == c[j]);
                        lemma_placed_grows(st.nodes, nodes, c[j].1, prefix.push(c[j].0));
                    } else {
                        lemma_placed_grows(mid.nodes, nodes, child, prefix.push(c[i].0));
                    }
                }
                assert forall|a: int, b: int| 0 <= a < b < next.len() implies (
                #[trigger] next[a]).0 != (#[trigger] next[b]).0 by {
                    assert(next[a].0 == c[a].0 && next[b].0 == c[b].0);
                }
            } else {
                let one = seq![meta];
                let leaf = CellNodeView::Leaf(one);
                let mid = cell_put(st, leaf);
                let e = (byte, cell_digest(leaf));
                let raw = c.push(e);
                let next = by_byte(raw);
                lemma_put(mid, CellNodeView::Branch(next));
                lemma_put(st, leaf);
                let nodes = cell_put(mid, CellNodeView::Branch(next)).nodes;
                assert forall|a: int, b: int| 0 <= a < b < raw.len() implies (
                #[trigger] raw[a]).0 != (#[trigger] raw[b]).0 by {
                    assert(raw[a] == c[a]);
                    if b < c.len() {
                        assert(raw[b] == c[b]);
                    }
                }
                lemma_sorted(raw);
                assert(leaf_placed(one, prefix.push(byte)));
                assert(nodes[e.1] == leaf);
                assert forall|j: int| 0 <= j < next.len() implies placed(
                    nodes,
                    (#[trigger] next[j]).1,
                    prefix.push(next[j].0),
                ) by {
                    assert(next.contains(next[j]));
                    let x = raw.index_of(next[j]);
                    if x < c.len() {
                        assert(raw[x] == c[x]);
                        lemma_placed_grows(st.nodes, nodes, c[x].1, prefix.push(c[x].0));
                    }
                }
            }
        },
    }
}

/// After a key has been taken out of an index, the cells still stand where their keys lead to,
/// provided that no digest was taken by other content.
pub proof fn lemma_delete_keeps_placed(st: CellSt, node: Seq<u8>, key: Seq<u8>, prefix: Seq<u8>)
    requires
        placed(st.nodes, node, prefix),
        key.len() == 32,
        st.clean,
        deleted(st, node, key, prefix.len()) matches Some(done) ==> done.2.clean,
    ensures
        deleted(st, node, key, prefix.len()) matches Some((root, gone, after)) && {
            &&& grows(st.nodes, after.nodes)
            &&& root matches Some(h) ==> placed(after.nodes, h, prefix)
        },
    decreases 33 - prefix.len(),
{
    let depth = prefix.len();
    match st.nodes[node] {
        CellNodeView::Leaf(m) => {
            let keep = |x: MetaView| x.key_hash != key;
            lemma_filter_placed(m, keep, prefix);
            if m.filter(keep).len() > 0 {
                lemma_put(st, CellNodeView::Leaf(m.filter(keep)));
            }
        },
        CellNodeView::Branch(c) => {
            let i = child_index(c, key[depth as int]);
            lemma_child_index(c, key[depth as int]);
            if i < c.len() {
                let inner = deleted(st, c[i].1, key, depth + 1);
                let (child, gone, mid) = inner->Some_0;
                let left = match child {
                    Some(h) => c.update(i, (c[i].0, h)),
                    None => c.remove(i),
                };
                if inner is Some && gone && left.len() > 0 {
                    lemma_put(mid, CellNodeView::Branch(left));
                }
                assert(prefix.push(c[i].0).len() == depth + 1);
                lemma_delete_keeps_placed(st, c[i].1, key, prefix.push(c[i].0));
                if !gone {
                    lemma_placed_grows(st.nodes, mid.nodes, node, prefix);
                } else if left.len() > 0 {
                    let nodes = cell_put(mid, CellNodeView::Branch(left)).nodes;
                    assert forall|j: int| 0 <= j < left.len() implies placed(
                        nodes,
                        (#[trigger] left[j]).1,
                        prefix.push(left[j].0),
                    ) by {
                        match child {
                            Some(h) => {
                                if j == i {
                                    lemma_placed_grows(mid.nodes, nodes, h, prefix.push(c[i].0));
                                } else {
                                    assert(left[j] == c[j]);
                                    lemma_placed_grows(
                                        st.nodes,
                                        nodes,
                                        c[j].1,
                                        prefix.push(c[j].0),
                                    );
                                }
                            },
                            None => {
                                let x = if j < i {
                                    j
                                } else {
                                    j + 1
                                };
                                assert(left[j] == c[x]);
                                lemma_placed_grows(st.nodes, nodes, c[x].1, prefix.push(c[x].0));
                            },
                        }
                    }
                    assert forall|a: int, b: int| 0 <= a < b < left.len() implies (
                    #[trigger] left[a]).0 != (#[trigger] left[b]).0 by {
                        match child {
                            Some(_) => {
                                assert(left[a].0 == c[a].0 && left[b].0 == c[b].0);
                            },
                            None => {
                                let x = if a < i {
                                    a
                                } else {
                                    a + 1
                                };
                                let y = if b < i {
                                    b
                                } else {
                                    b + 1
                                };
                                assert(left[a] == c[x] && left[b] == c[y]);
                            },
                        }
                    }
                }
            }
        },
    }
}

/// Whether a list holds only cells that the index has for their keys, and none twice.
pub open spec fn all_found(
    all: Seq<MetaView>,
    nodes: Map<Seq<u8>, CellNodeView>,
    node: Seq<u8>,
    prefix: Seq<u8>,
) -> bool {
    &&& leaf_placed(all, prefix)
    &&& forall|i: int|
        0 <= i < all.len() ==> cell_at(nodes, node, (#[trigger] all[i]).key_hash, prefix.len())
            == Some(Some(all[i]))
}

/// Every cell that an index lists is the one that the index has for the cell's key, and no key is
/// listed twice.
pub proof fn lemma_listed_is_found(
    nodes: Map<Seq<u8>, CellNodeView>,
    node: Seq<u8>,
    prefix: Seq<u8>,
    fuel: nat,
)
    requires
        placed(nodes, node, prefix),
        prefix.len() + fuel >= 33,
    ensures
        cells_below(nodes, node, fuel) matches Some(all) && all_found(all, nodes, node, prefix),
    decreases 33 - prefix.len(), 1nat, 0nat,
{
    let depth = prefix.len();
    match nodes[node] {
        CellNodeView::Leaf(m) => {
            assert forall|i: int| 0 <= i < m.len() implies cell_at(
                nodes,
                node,
                (#[trigger] m[i]).key_hash,
                depth,
            ) == Some(Some(m[i])) by {
                let k = m[i].key_hash;
                lemma_meta_index(m, k);
                let j = meta_index(m, k);
                if j < i {
                    assert(m[j].key_hash != m[i].key_hash);
                }
                if i < j {
                    assert(m[i].key_hash != k);
                }
                assert(find_meta(m, k) == Some(m[i]));
            }
        },
        CellNodeView::Branch(c) => {
            lemma_listed_below(nodes, c, prefix, (fuel - 1) as nat, c.len());
            let all = cells_of(nodes, c, (fuel - 1) as nat, c.len())->0;
            assert forall|k: int| 0 <= k < all.len() implies cell_at(
                nodes,
                node,
                (#[trigger] all[k]).key_hash,
                depth,
            ) == Some(Some(all[k])) by {
                assert(from_child(all[k], nodes, c, prefix, c.len()));
                let j = choose|j: int|
                    0 <= j < c.len() && byte_at(all[k].key_hash, depth) == (#[trigger] c[j]).0
                        && cell_at(nodes, c[j].1, all[k].key_hash, depth + 1) == Some(
                        Some(all[k]),
                    );
                lemma_child_at(c, j);
            }
        },
    }
}

/// Whether a cell is found below one of the first `n` children, the one that its key leads to.
pub open spec fn from_child(
    m: MetaView,
    nodes: Map<Seq<u8>, CellNodeView>,
    c: Seq<ChildView>,
    prefix: Seq<u8>,
    n: nat,
) -> bool {
    exists|j: int|
        0 <= j < n && byte_at(m.key_hash, prefix.len()) == (#[trigger] c[j]).0 && cell_at(
            nodes,
            c[j].1,
            m.key_hash,
            prefix.len() + 1,
        ) == Some(Some(m))
}

proof fn lemma_listed_below(
    nodes: Map<Seq<u8>, CellNodeView>,
    c: Seq<ChildView>,
    prefix: Seq<u8>,
    fuel: nat,
    n: nat,
)
    requires
        n <= c.len(),
        prefix.len() < 32,
        prefix.len() + 1 + fuel >= 33,
        distinct_bytes(c),
        forall|i: int|
            0 <= i < c.len() ==> placed(nodes, (#[trigger] c[i]).1, prefix.push(c[i].0)),
    ensures
        cells_of(nodes, c, fuel, n) matches Some(all) && leaf_placed(all, prefix) && (forall|
            k: int,
        |
            0 <= k < all.len() ==> from_child(#[trigger] all[k], nodes, c, prefix, n)),
    decreases 33 - prefix.len(), 0nat, n,
{
    let depth = prefix.len();
    if n > 0 {
        lemma_listed_below(nodes, c, prefix, fuel, (n - 1) as nat);
        let longer = prefix.push(c[n - 1].0);
        assert(longer.len() == depth + 1);
        lemma_listed_is_found(nodes, c[n - 1].1, longer, fuel);
        let front = cells_of(nodes, c, fuel, (n - 1) as nat)->0;
        let last = cells_below(nodes, c[n - 1].1, fuel)->0;
        let all = front + last;
        assert(cells_of(nodes, c, fuel, n) == Some(all));
        assert forall|i: int| 0 <= i < last.len() implies begins(#[trigger] last[i], prefix)
            && byte_at(last[i].key_hash, depth) == c[n - 1].0 by {
            assert(begins(last[i], longer));
            let k = last[i].key_hash;
            assert(k.take(depth as int) =~= k.take(depth as int + 1).take(depth as int));
            assert(longer.take(depth as int) =~= prefix);
            assert(k.take(depth as int + 1)[depth as int] == k[depth as int]);
        }
        assert forall|i: int| 0 <= i < front.len() implies byte_at(
            (#[trigger] front[i]).key_hash,
            depth,
        ) != c[n - 1].0 by {
            assert(from_child(front[i], nodes, c, prefix, (n - 1) as nat));
            let j = choose|j: int|
                0 <= j < n - 1 && byte_at(front[i].key_hash, depth) == (#[trigger] c[j]).0
                    && cell_at(nodes, c[j].1, front[i].key_hash, depth + 1) == Some(
                    Some(front[i]),
                );
            assert(c[j].0 != c[n - 1].0);
        }
        assert forall|k: int| 0 <= k < all.len() implies begins(#[trigger] all[k], prefix)
            && from_child(all[k], nodes, c, prefix, n) by {
            if k < front.len() {
                assert(all[k] == front[k]);
                assert(from_child(front[k], nodes, c, prefix, (n - 1) as nat));
            } else {
                let x = k - front.len();
                assert(all[k] == last[x]);
                assert(byte_at(last[x].key_hash, depth) == c[n - 1].0);
            }
        }
        assert forall|a: int, b: int| 0 <= a < b < all.len() implies (#[trigger] all[a]).key_hash
            != (#[trigger] all[b]).key_hash by {
            if b < front.len() {
                assert(all[a] == front[a] && all[b] == front[b]);
            } else if a >= front.len() {
                assert(all[a] == last[a - front.len()] && all[b] == last[b - front.len()]);
            } else {
                assert(all[a] == front[a] && all[b] == last[b - front.len()]);
            }
        }
    }
}

} // verus!
