//! What the operations on the index of cells promise together.
use vstd::prelude::*;

use crate::cell_index::{bucket, by_byte, byte_at, cell_at, cell_digest, cell_put, cells_below,
    cells_of, child_index,
    child_placed, deleted, find_meta, inserted, lemma_child_index, lemma_meta_index, meta_index,
    split_children, split_leaf, CellNodeView, CellSt, ChildView, MetaView};

verus! {

/// No byte has two children.
pub open spec fn distinct_bytes(c: Seq<ChildView>) -> bool {
    forall|i: int, j: int|
        0 <= i < j < c.len() ==> (#[trigger] c[i]).0 != (#[trigger] c[j]).0
}

/// A well-formed index: every node below `node` is in the store, no byte of a branch has two
/// children, and no branch lies deeper than a key has bytes.
pub open spec fn index_ok(nodes: Map<Seq<u8>, CellNodeView>, node: Seq<u8>, depth: nat) -> bool
    decreases 33 - depth,
{
    depth <= 32 && nodes.contains_key(node) && match nodes[node] {
        CellNodeView::Leaf(_) => true,
        CellNodeView::Branch(c) => depth < 32 && distinct_bytes(c) && forall|i: int|
            0 <= i < c.len() ==> index_ok(nodes, (#[trigger] c[i]).1, depth + 1),
    }
}

/// Every node of the first store is in the second.
pub open spec fn grows(a: Map<Seq<u8>, CellNodeView>, b: Map<Seq<u8>, CellNodeView>) -> bool {
    forall|k: Seq<u8>|
        a.contains_key(k) ==> #[trigger] b.contains_key(k) && b[k] == a[k]
}

pub(crate) proof fn lemma_grows(
    a: Map<Seq<u8>, CellNodeView>,
    b: Map<Seq<u8>, CellNodeView>,
    node: Seq<u8>,
    key: Seq<u8>,
    depth: nat,
)
    requires
        grows(a, b),
        index_ok(a, node, depth),
    ensures
        index_ok(b, node, depth),
        cell_at(b, node, key, depth) == cell_at(a, node, key, depth),
        cell_at(a, node, key, depth) is Some,
    decreases 33 - depth,
{
    assert(b.contains_key(node));
    match a[node] {
        CellNodeView::Leaf(_) => {},
        CellNodeView::Branch(c) => {
            assert forall|i: int| 0 <= i < c.len() implies index_ok(
                b,
                (#[trigger] c[i]).1,
                depth + 1,
            ) by {
                lemma_grows(a, b, c[i].1, key, depth + 1);
            }
            lemma_child_index(c, key[depth as int]);
            let i = child_index(c, key[depth as int]);
            if i < c.len() {
                lemma_grows(a, b, c[i].1, key, depth + 1);
            }
        },
    }
}

pub(crate) proof fn lemma_put(st: CellSt, v: CellNodeView)
    requires
        cell_put(st, v).clean,
    ensures
        st.clean,
        grows(st.nodes, cell_put(st, v).nodes),
        cell_put(st, v).nodes.contains_key(cell_digest(v)),
        cell_put(st, v).nodes[cell_digest(v)] == v,
{
}

pub(crate) proof fn lemma_child_at(c: Seq<ChildView>, i: int)
    requires
        distinct_bytes(c),
        0 <= i < c.len(),
    ensures
        child_index(c, c[i].0) == i,
{
    lemma_child_index(c, c[i].0);
    let j = child_index(c, c[i].0);
    if j < i {
        assert(c[j].0 != c[i].0);
    }
    if i < j {
        assert(c[i].0 != c[i].0);
    }
}

proof fn lemma_placed(s: Seq<ChildView>, e: ChildView)
    ensures
        child_placed(s, e).len() == s.len() + 1,
        forall|x: ChildView| #[trigger]
            child_placed(s, e).contains(x) <==> s.contains(x) || x == e,
        distinct_bytes(s) && (forall|i: int| 0 <= i < s.len() ==> (#[trigger] s[i]).0 != e.0)
            ==> distinct_bytes(child_placed(s, e)),
    decreases s.len(),
{
    if s.len() == 0 {
        let p = child_placed(s, e);
        assert(p =~= seq![e]);
        assert(p[0] == e);
    } else if e.0 < s.last().0 {
        let front = s.drop_last();
        lemma_placed(front, e);
        let q = child_placed(front, e);
        let p = child_placed(s, e);
        assert(p == q.push(s.last()));
        assert forall|x: ChildView| #[trigger] p.contains(x) <==> s.contains(x) || x == e by {
            if p.contains(x) {
                let k = p.index_of(x);
                if k < q.len() {
                    assert(q[k] == x);
                    assert(q.contains(x));
                    if front.contains(x) {
                        let m = front.index_of(x);
                        assert(s[m] == x);
                    }
                }
            }
            if s.contains(x) {
                let k = s.index_of(x);
                if k < front.len() {
                    assert(front[k] == x);
                    assert(q.contains(x));
                    let m = q.index_of(x);
                    assert(p[m] == x);
                } else {
                    assert(p[q.len() as int] == x);
                }
            }
            if x == e {
                assert(q.contains(x));
                let m = q.index_of(x);
                assert(p[m] == x);
            }
        }
        if distinct_bytes(s) && (forall|i: int|
            0 <= i < s.len() ==> (#[trigger] s[i]).0 != e.0) {
            assert forall|i: int| 0 <= i < front.len() implies (#[trigger] front[i]).0
                != e.0 by {
                assert(front[i] == s[i]);
            }
            assert forall|i: int, j: int| 0 <= i < j < front.len() implies (
            #[trigger] front[i]).0 != (#[trigger] front[j]).0 by {
                assert(front[i] == s[i] && front[j] == s[j]);
            }
            assert forall|i: int, j: int| 0 <= i < j < p.len() implies (#[trigger] p[i]).0 != (
            #[trigger] p[j]).0 by {
                if j == q.len() {
                    assert(q.contains(q[i]));
                    if front.contains(q[i]) {
                        let m = front.index_of(q[i]);
                        assert(s[m] == q[i]);
                    }
                } else {
                    assert(p[i] == q[i] && p[j] == q[j]);
                }
            }
        }
    } else {
        let p = child_placed(s, e);
        assert(p == s.push(e));
        assert forall|x: ChildView| #[trigger] p.contains(x) <==> s.contains(x) || x == e by {
            if s.contains(x) {
                let k = s.index_of(x);
                assert(p[k] == x);
            }
            assert(p[s.len() as int] == e);
            if p.contains(x) {
                let k = p.index_of(x);
                if k < s.len() {
                    assert(s[k] == x);
                }
            }
        }
    }
}

pub(crate) proof fn lemma_sorted(s: Seq<ChildView>)
    ensures
        forall|x: ChildView| #[trigger] by_byte(s).contains(x) <==> s.contains(x),
        distinct_bytes(s) ==> distinct_bytes(by_byte(s)),
    decreases s.len(),
{
    if s.len() > 0 {
        let front = s.drop_last();
        let e = s.last();
        lemma_sorted(front);
        lemma_placed(by_byte(front), e);
        assert forall|x: ChildView| #[trigger] by_byte(s).contains(x) <==> s.contains(x) by {
            if s.contains(x) {
                let k = s.index_of(x);
                if k < front.len() {
                    assert(front[k] == x);
                }
            }
            if front.contains(x) {
                let k = front.index_of(x);
                assert(s[k] == x);
            }
            assert(s[s.len() - 1] == e);
        }
        if distinct_bytes(s) {
            assert forall|i: int, j: int| 0 <= i < j < front.len() implies (
            #[trigger] front[i]).0 != (#[trigger] front[j]).0 by {
                assert(front[i] == s[i] && front[j] == s[j]);
            }
            let q = by_byte(front);
            assert forall|i: int| 0 <= i < q.len() implies (#[trigger] q[i]).0 != e.0 by {
                assert(q.contains(q[i]));
                let k = front.index_of(q[i]);
                assert(s[k] == q[i]);
                assert(s[s.len() - 1] == e);
            }
        }
    }
}

/// A list without two children for one byte is read by membership.
proof fn lemma_by_member(c: Seq<ChildView>, byte: u8, hash: Seq<u8>)
    requires
        distinct_bytes(c),
        c.contains((byte, hash)),
    ensures
        child_index(c, byte) < c.len(),
        c[child_index(c, byte)] == (byte, hash),
{
    let i = c.index_of((byte, hash));
    lemma_child_at(c, i);
}

proof fn lemma_find_in_part(s: Seq<MetaView>, keep: spec_fn(MetaView) -> bool, key: Seq<u8>)
    requires
        forall|i: int|
            0 <= i < s.len() && (#[trigger] s[i]).key_hash == key ==> keep(s[i]),
    ensures
        find_meta(s.filter(keep), key) == find_meta(s, key),
    decreases s.len(),
{
    reveal(Seq::filter);
    if s.len() > 0 {
        let rest = s.drop_first();
        assert forall|i: int| 0 <= i < rest.len() && (#[trigger] rest[i]).key_hash
            == key implies keep(rest[i]) by {
            assert(rest[i] == s[i + 1]);
        }
        lemma_find_in_part(rest, keep, key);
        lemma_filter_first(s, keep);
        if keep(s[0]) {
            let f = s.filter(keep);
            assert(f.drop_first() =~= rest.filter(keep));
        }
    }
}

proof fn lemma_filter_first(s: Seq<MetaView>, keep: spec_fn(MetaView) -> bool)
    requires
        s.len() > 0,
    ensures
        s.filter(keep) == (if keep(s[0]) {
            seq![s[0]] + s.drop_first().filter(keep)
        } else {
            s.drop_first().filter(keep)
        }),
    decreases s.len(),
{
    reveal(Seq::filter);
    if s.len() == 1 {
        assert(s.drop_last() =~= Seq::empty());
        assert(s.drop_first() =~= Seq::empty());
        assert(s.last() == s[0]);
        assert(Seq::<MetaView>::empty().filter(keep) =~= Seq::empty());
        assert(s.filter(keep) =~= if keep(s[0]) {
            seq![s[0]]
        } else {
            Seq::empty()
        });
        assert(seq![s[0]] + Seq::<MetaView>::empty() =~= seq![s[0]]);
    } else {
        let a = s.drop_last();
        lemma_filter_first(a, keep);
        assert(a[0] == s[0]);
        assert(a.drop_first() =~= s.drop_first().drop_last());
        assert(s.drop_first().last() == s.last());
        let mid = a.drop_first().filter(keep);
        assert((seq![s[0]] + mid).push(s.last()) =~= seq![s[0]] + mid.push(s.last()));
    }
}

proof fn lemma_found_is_there(s: Seq<MetaView>, key: Seq<u8>)
    ensures
        find_meta(s, key) is Some <==> exists|i: int|
            0 <= i < s.len() && (#[trigger] s[i]).key_hash == key,
{
    lemma_meta_index(s, key);
    if find_meta(s, key) is Some {
        assert(s[meta_index(s, key)].key_hash == key);
    }
}

/// What the children of a split leaf hold.
pub open spec fn parts_hold(
    c: Seq<ChildView>,
    nodes: Map<Seq<u8>, CellNodeView>,
    s: Seq<MetaView>,
    depth: nat,
    n: nat,
) -> bool {
    &&& distinct_bytes(c)
    &&& forall|i: int|
        0 <= i < c.len() ==> {
            &&& (#[trigger] c[i]).0 < n
            &&& bucket(s, depth, c[i].0).len() > 0
            &&& nodes.contains_key(c[i].1)
            &&& nodes[c[i].1] == CellNodeView::Leaf(bucket(s, depth, c[i].0))
        }
    &&& forall|b: u8|
        b < n && (#[trigger] bucket(s, depth, b)).len() > 0 ==> c.contains(
            (b, cell_digest(CellNodeView::Leaf(bucket(s, depth, b)))),
        )
}

pub(crate) proof fn lemma_split_children(st: CellSt, s: Seq<MetaView>, depth: nat, n: nat)
    requires
        n <= 256,
        split_children(st, s, depth, n).1.clean,
    ensures
        st.clean,
        grows(st.nodes, split_children(st, s, depth, n).1.nodes),
        parts_hold(
            split_children(st, s, depth, n).0,
            split_children(st, s, depth, n).1.nodes,
            s,
            depth,
            n,
        ),
    decreases n,
{
    if n > 0 {
        let (done, mid) = split_children(st, s, depth, (n - 1) as nat);
        let b = (n - 1) as u8;
        let part = bucket(s, depth, b);
        if part.len() == 0 {
            lemma_split_children(st, s, depth, (n - 1) as nat);
            assert forall|x: u8| x < n && (#[trigger] bucket(s, depth, x)).len()
                > 0 implies done.contains(
                (x, cell_digest(CellNodeView::Leaf(bucket(s, depth, x)))),
            ) by {
                assert(x != b);
            }
        } else {
            let leaf = CellNodeView::Leaf(part);
            let after = cell_put(mid, leaf);
            lemma_put(mid, leaf);
            lemma_split_children(st, s, depth, (n - 1) as nat);
            let all = done.push((b, cell_digest(leaf)));
            assert forall|i: int| 0 <= i < all.len() implies {
                &&& (#[trigger] all[i]).0 < n
                &&& bucket(s, depth, all[i].0).len() > 0
                &&& after.nodes.contains_key(all[i].1)
                &&& after.nodes[all[i].1] == CellNodeView::Leaf(bucket(s, depth, all[i].0))
            } by {
                if i < done.len() {
                    assert(all[i] == done[i]);
                }
            }
            assert forall|i: int, j: int| 0 <= i < j < all.len() implies (
            #[trigger] all[i]).0 != (#[trigger] all[j]).0 by {
                assert(all[i] == done[i]);
                if j < done.len() {
                    assert(all[j] == done[j]);
                }
            }
            assert forall|x: u8| x < n && (#[trigger] bucket(s, depth, x)).len()
                > 0 implies all.contains(
                (x, cell_digest(CellNodeView::Leaf(bucket(s, depth, x)))),
            ) by {
                let c = (x, cell_digest(CellNodeView::Leaf(bucket(s, depth, x))));
                if x == b {
                    assert(all[done.len() as int] == c);
                } else {
                    let k = done.index_of(c);
                    assert(all[k] == c);
                }
            }
        }
    }
}

proof fn lemma_split(st: CellSt, s: Seq<MetaView>, depth: nat)
    requires
        depth < 32,
        split_leaf(st, s, depth).1.clean,
    ensures
        st.clean,
        grows(st.nodes, split_leaf(st, s, depth).1.nodes),
        index_ok(split_leaf(st, s, depth).1.nodes, split_leaf(st, s, depth).0, depth),
        forall|key: Seq<u8>|
            key.len() == 32 ==> #[trigger] cell_at(
                split_leaf(st, s, depth).1.nodes,
                split_leaf(st, s, depth).0,
                key,
                depth,
            ) == Some(find_meta(s, key)),
{
    let (c, mid) = split_children(st, s, depth, 256);
    let node = CellNodeView::Branch(c);
    let nodes = cell_put(mid, node).nodes;
    let root = cell_digest(node);
    lemma_put(mid, node);
    lemma_split_children(st, s, depth, 256);
    assert forall|i: int| 0 <= i < c.len() implies index_ok(
        nodes,
        (#[trigger] c[i]).1,
        depth + 1,
    ) by {}
    assert forall|key: Seq<u8>| key.len() == 32 implies #[trigger] cell_at(
        nodes,
        root,
        key,
        depth,
    ) == Some(find_meta(s, key)) by {
        let b = key[depth as int];
        let part = bucket(s, depth, b);
        let keep = |m: MetaView| byte_at(m.key_hash, depth) == b;
        lemma_find_in_part(s, keep, key);
        assert(find_meta(part, key) == find_meta(s, key));
        lemma_child_index(c, b);
        let i = child_index(c, b);
        if part.len() > 0 {
            lemma_by_member(c, b, cell_digest(CellNodeView::Leaf(part)));
            assert(nodes[c[i].1] == CellNodeView::Leaf(part));
            assert(cell_at(nodes, c[i].1, key, depth + 1) == Some(find_meta(part, key)));
        } else {
            if i < c.len() {
                assert(c[i].0 == b);
            }
        }
    }
}

/// After a cell has been put into a well-formed index, the index is well-formed, its key has the
/// cell, and every other key has what it had, provided that no digest was taken by other content.
pub proof fn lemma_upsert_is_read(st: CellSt, node: Seq<u8>, meta: MetaView, depth: nat)
    requires
        index_ok(st.nodes, node, depth),
        meta.key_hash.len() == 32,
        inserted(st, node, meta, depth) matches Some(done) ==> done.1.clean,
    ensures
        inserted(st, node, meta, depth) matches Some((root, after)) && {
            &&& st.clean
            &&& grows(st.nodes, after.nodes)
            &&& index_ok(after.nodes, root, depth)
            &&& forall|key: Seq<u8>|
                key.len() == 32 ==> #[trigger] cell_at(after.nodes, root, key, depth) == if key
                    == meta.key_hash {
                    Some(Some(meta))
                } else {
                    cell_at(st.nodes, node, key, depth)
                }
        },
    decreases 33 - depth,
{
    match st.nodes[node] {
        CellNodeView::Leaf(m) => {
            let k = meta.key_hash;
            lemma_meta_index(m, k);
            let i = meta_index(m, k);
            let next = if i < m.len() {
                m.update(i, meta)
            } else {
                m.push(meta)
            };
            assert forall|key: Seq<u8>| #[trigger] find_meta(next, key) == if key == k {
                Some(meta)
            } else {
                find_meta(m, key)
            } by {
                lemma_meta_index(next, key);
                lemma_meta_index(m, key);
                let a = meta_index(next, key);
                let b = meta_index(m, key);
                if key == k {
                    assert(next[i] == meta);
                    if a < i {
                        assert(next[a] == m[a]);
                        assert(m[a].key_hash != k);
                    }
                    if i < a {
                        assert(next[i].key_hash != key);
                    }
                } else {
                    if b < m.len() {
                        assert(b != i);
                        assert(next[b] == m[b]);
                        if a < b {
                            if a != i {
                                assert(next[a] == m[a]);
                            }
                            assert(m[a].key_hash != key);
                        }
                        if b < a {
                            assert(next[b].key_hash != key);
                        }
                    } else if a < next.len() {
                        assert(a != i);
                        assert(next[a] == m[a]);
                        assert(m[a].key_hash != key);
                    }
                }
            }
            if i >= m.len() && m.len() + 1 > crate::cell_index::LEAF_MAX && depth < 32 {
                lemma_split(st, next, depth);
            } else {
                lemma_put(st, CellNodeView::Leaf(next));
            }
        },
        CellNodeView::Branch(c) => {
            let byte = byte_at(meta.key_hash, depth);
            let i = child_index(c, byte);
            lemma_child_index(c, byte);
            let (root, after) = inserted(st, node, meta, depth)->Some_0;
            if i < c.len() {
                let (child, mid) = inserted(st, c[i].1, meta, depth + 1)->Some_0;
                let next = c.update(i, (c[i].0, child));
                if inserted(st, c[i].1, meta, depth + 1) is Some {
                    lemma_put(mid, CellNodeView::Branch(next));
                }
                lemma_upsert_is_read(st, c[i].1, meta, depth + 1);
                let nodes = after.nodes;
                lemma_grows(mid.nodes, nodes, child, meta.key_hash, depth + 1);
                assert forall|j: int| 0 <= j < next.len() implies index_ok(
                    nodes,
                    (#[trigger] next[j]).1,
                    depth + 1,
                ) by {
                    if j != i {
                        assert(next[j] == c[j]);
                        lemma_grows(st.nodes, nodes, c[j].1, meta.key_hash, depth + 1);
                    }
                }
                assert forall|a: int, b: int| 0 <= a < b < next.len() implies (
                #[trigger] next[a]).0 != (#[trigger] next[b]).0 by {
                    assert(next[a].0 == c[a].0 && next[b].0 == c[b].0);
                }
                assert forall|key: Seq<u8>| key.len() == 32 implies #[trigger] cell_at(
                    nodes,
                    root,
                    key,
                    depth,
                ) == if key == meta.key_hash {
                    Some(Some(meta))
                } else {
                    cell_at(st.nodes, node, key, depth)
                } by {
                    let kb = key[depth as int];
                    lemma_child_index(c, kb);
                    let j = child_index(c, kb);
                    if j < c.len() {
                        assert(next[j].0 == kb);
                        lemma_child_at(next, j);
                        if j == i {
                            lemma_grows(mid.nodes, nodes, child, key, depth + 1);
                        } else {
                            assert(next[j] == c[j]);
                            lemma_grows(st.nodes, nodes, c[j].1, key, depth + 1);
                        }
                    } else {
                        lemma_child_index(next, kb);
                        let x = child_index(next, kb);
                        if x < next.len() {
                            assert(c[x].0 == kb);
                        }
                    }
                }
            } else {
                let leaf = CellNodeView::Leaf(seq![meta]);
                let mid = cell_put(st, leaf);
                let e = (byte, cell_digest(leaf));
                let raw = c.push(e);
                let next = by_byte(raw);
                lemma_put(mid, CellNodeView::Branch(next));
                lemma_put(st, leaf);
                let nodes = after.nodes;
                assert forall|a: int, b: int| 0 <= a < b < raw.len() implies (
                #[trigger] raw[a]).0 != (#[trigger] raw[b]).0 by {
                    assert(raw[a] == c[a]);
                    if b < c.len() {
                        assert(raw[b] == c[b]);
                    }
                }
                lemma_sorted(raw);
                assert(raw[c.len() as int] == e);
                assert(raw.contains(e));
                assert forall|j: int| 0 <= j < next.len() implies index_ok(
                    nodes,
                    (#[trigger] next[j]).1,
                    depth + 1,
                ) by {
                    assert(next.contains(next[j]));
                    let x = raw.index_of(next[j]);
                    if x < c.len() {
                        assert(raw[x] == c[x]);
                        lemma_grows(st.nodes, nodes, c[x].1, meta.key_hash, depth + 1);
                    }
                }
                assert forall|key: Seq<u8>| key.len() == 32 implies #[trigger] cell_at(
                    nodes,
                    root,
                    key,
                    depth,
                ) == if key == meta.key_hash {
                    Some(Some(meta))
                } else {
                    cell_at(st.nodes, node, key, depth)
                } by {
                    let kb = key[depth as int];
                    lemma_child_index(c, kb);
                    let j = child_index(c, kb);
                    if kb == byte {
                        lemma_by_member(next, byte, e.1);
                        lemma_meta_index(seq![meta], key);
                        let one = seq![meta];
                        assert(one[0] == meta);
                        assert(cell_at(nodes, e.1, key, depth + 1) == Some(find_meta(one, key)));
                        if key != meta.key_hash && find_meta(one, key) is Some {
                            assert(one[meta_index(one, key)] == meta);
                        }
                        if key == meta.key_hash {
                            if meta_index(one, key) != 0 {
                                assert(one[0].key_hash != key);
                            }
                        }
                    } else if j < c.len() {
                        assert(raw[j] == c[j]);
                        assert(raw.contains(c[j]));
                        assert(next.contains((kb, c[j].1)));
                        lemma_by_member(next, kb, c[j].1);
                        lemma_grows(st.nodes, nodes, c[j].1, key, depth + 1);
                    } else {
                        lemma_child_index(next, kb);
                        let x = child_index(next, kb);
                        if x < next.len() {
                            assert(next.contains(next[x]));
                            let y = raw.index_of(next[x]);
                            if y < c.len() {
                                assert(c[y].0 == kb);
                            }
                        }
                    }
                }
            }
        },
    }
}

/// An answer that holds a cell.
pub open spec fn has_cell(r: Option<Option<MetaView>>) -> bool {
    r is Some && r->Some_0 is Some
}

/// After a key has been taken out of a well-formed index, the key has nothing, every other key has
/// what it had, and the answer says whether the key had a cell, provided that no digest was taken
/// by other content. Where no root is left, no key has anything.
pub proof fn lemma_deleted_is_gone(st: CellSt, node: Seq<u8>, key: Seq<u8>, depth: nat)
    requires
        index_ok(st.nodes, node, depth),
        key.len() == 32,
        st.clean,
        deleted(st, node, key, depth) matches Some(done) ==> done.2.clean,
    ensures
        deleted(st, node, key, depth) matches Some((root, gone, after)) && {
            &&& grows(st.nodes, after.nodes)
            &&& gone <==> has_cell(cell_at(st.nodes, node, key, depth))
            &&& root matches Some(h) ==> index_ok(after.nodes, h, depth)
            &&& forall|k: Seq<u8>|
                k.len() == 32 ==> #[trigger] cell_at(st.nodes, node, k, depth) == if k == key
                    && gone {
                    cell_at(st.nodes, node, key, depth)
                } else {
                    match root {
                        Some(h) => cell_at(after.nodes, h, k, depth),
                        None => Some(None),
                    }
                }
            &&& root matches Some(h) ==> cell_at(after.nodes, h, key, depth) == Some(
                None::<MetaView>,
            )
        },
    decreases 33 - depth,
{
    match st.nodes[node] {
        CellNodeView::Leaf(m) => {
            let keep = |x: MetaView| x.key_hash != key;
            let rest = m.filter(keep);
            assert forall|k: Seq<u8>| k != key implies #[trigger] find_meta(m, k) == find_meta(
                rest,
                k,
            ) by {
                lemma_find_in_part(m, keep, k);
            }
            lemma_filter_keeps(m, keep);
            lemma_found_is_there(rest, key);
            lemma_found_is_there(m, key);
            if rest.len() > 0 {
                lemma_put(st, CellNodeView::Leaf(rest));
            } else {
                assert forall|k: Seq<u8>| k != key implies #[trigger] find_meta(m, k) is None by {
                    assert(find_meta(rest, k) is None);
                }
            }
        },
        CellNodeView::Branch(c) => {
            let byte = key[depth as int];
            let i = child_index(c, byte);
            lemma_child_index(c, byte);
            if i < c.len() {
                let inner = deleted(st, c[i].1, key, depth + 1);
                let (child, gone, mid) = inner->Some_0;
                let left = match child {
                    Some(h) => c.update(i, (c[i].0, h)),
                    None => c.remove(i),
                };
                if inner is Some && gone && left.len() > 0 {
                    lemma_put(mid, CellNodeView::Branch(left));
                }
                lemma_deleted_is_gone(st, c[i].1, key, depth + 1);
                let (root, _, after) = deleted(st, node, key, depth)->Some_0;
                let nodes = after.nodes;
                assert(grows(st.nodes, nodes));
                if !gone {
                    assert forall|k: Seq<u8>| k.len() == 32 implies #[trigger] cell_at(
                        st.nodes,
                        node,
                        k,
                        depth,
                    ) == cell_at(nodes, node, k, depth) by {
                        lemma_grows(st.nodes, nodes, node, k, depth);
                    }
                    lemma_grows(st.nodes, nodes, node, key, depth);
                    assert(cell_at(st.nodes, node, key, depth) == cell_at(
                        st.nodes,
                        c[i].1,
                        key,
                        depth + 1,
                    ));
                    lemma_grows(st.nodes, st.nodes, c[i].1, key, depth + 1);
                } else {
                    assert forall|j: int| 0 <= j < left.len() implies index_ok(
                        nodes,
                        (#[trigger] left[j]).1,
                        depth + 1,
                    ) by {
                        match child {
                            Some(h) => {
                                if j == i {
                                    lemma_grows(mid.nodes, nodes, h, key, depth + 1);
                                } else {
                                    assert(left[j] == c[j]);
                                    lemma_grows(st.nodes, nodes, c[j].1, key, depth + 1);
                                }
                            },
                            None => {
                                let x = if j < i {
                                    j
                                } else {
                                    j + 1
                                };
                                assert(left[j] == c[x]);
                                lemma_grows(st.nodes, nodes, c[x].1, key, depth + 1);
                            },
                        }
                    }
                    assert(distinct_bytes(left)) by {
                        assert forall|a: int, b: int| 0 <= a < b < left.len() implies (
                        #[trigger] left[a]).0 != (#[trigger] left[b]).0 by {
                            match child {
                                Some(_) => {
                                    assert(left[a].0 == c[a].0 && left[b].0 == c[b].0);
                                },
                                None => {
                                    let x = if a < i {
                                        a
                                    } else {
                                        a + 1
                                    };
                                    let y = if b < i {
                                        b
                                    } else {
                                        b + 1
                                    };
                                    assert(left[a] == c[x] && left[b] == c[y]);
                                },
                            }
                        }
                    }
                    assert forall|k: Seq<u8>| k.len() == 32 implies ({
                        let now = match root {
                            Some(h) => cell_at(nodes, h, k, depth),
                            None => Some(None),
                        };
                        if k == key {
                            now == Some(None::<MetaView>)
                        } else {
                            #[trigger] cell_at(st.nodes, node, k, depth) == now
                        }
                    }) by {
                        let kb = k[depth as int];
                        lemma_child_index(c, kb);
                        let j = child_index(c, kb);
                        lemma_child_index(left, kb);
                        let z = child_index(left, kb);
                        if j < c.len() && j != i {
                            match child {
                                Some(_) => {
                                    assert(left[j] == c[j]);
                                    lemma_child_at(left, j);
                                },
                                None => {
                                    let y = if j < i {
                                        j
                                    } else {
                                        j - 1
                                    };
                                    assert(left[y] == c[j]);
                                    lemma_child_at(left, y);
                                },
                            }
                            lemma_grows(st.nodes, nodes, c[j].1, k, depth + 1);
                        } else if j == i {
                            match child {
                                Some(h) => {
                                    assert(left[i].0 == kb);
                                    lemma_child_at(left, i);
                                    lemma_grows(mid.nodes, nodes, h, k, depth + 1);
                                },
                                None => {
                                    if z < left.len() {
                                        let x = if z < i {
                                            z
                                        } else {
                                            z + 1
                                        };
                                        assert(left[z] == c[x]);
                                        assert(c[x].0 == kb && c[i].0 == kb);
                                    }
                                },
                            }
                            assert(cell_at(st.nodes, node, k, depth) == cell_at(
                                st.nodes,
                                c[i].1,
                                k,
                                depth + 1,
                            ));
                        } else {
                            if z < left.len() {
                                match child {
                                    Some(_) => {
                                        assert(left[z].0 == c[z].0);
                                        assert(c[z].0 == kb);
                                    },
                                    None => {
                                        let x = if z < i {
                                            z
                                        } else {
                                            z + 1
                                        };
                                        assert(left[z] == c[x]);
                                        assert(c[x].0 == kb);
                                    },
                                }
                            }
                        }
                    }
                    assert(cell_at(st.nodes, node, key, depth) == cell_at(
                        st.nodes,
                        c[i].1,
                        key,
                        depth + 1,
                    ));
                }
            } else {
                lemma_grows(st.nodes, st.nodes, node, key, depth);
            }
        },
    }
}

/// What a filter leaves satisfies it, and nothing is left out where everything does.
pub(crate) proof fn lemma_filter_keeps(s: Seq<MetaView>, keep: spec_fn(MetaView) -> bool)
    ensures
        forall|i: int| 0 <= i < s.filter(keep).len() ==> keep(#[trigger] s.filter(keep)[i]),
        s.filter(keep).len() <= s.len(),
        s.filter(keep).len() == s.len() <==> (forall|i: int|
            0 <= i < s.len() ==> keep(#[trigger] s[i])),
    decreases s.len(),
{
    reveal(Seq::filter);
    if s.len() > 0 {
        let front = s.drop_last();
        lemma_filter_keeps(front, keep);
        let f = front.filter(keep);
        if keep(s.last()) {
            assert(s.filter(keep) == f.push(s.last()));
        }
        if forall|i: int| 0 <= i < s.len() ==> keep(#[trigger] s[i]) {
            assert forall|i: int| 0 <= i < front.len() implies keep(#[trigger] front[i]) by {
                assert(front[i] == s[i]);
            }
            assert(keep(s[s.len() - 1]));
        }
        if s.filter(keep).len() == s.len() {
            assert(keep(s.last()));
            assert forall|i: int| 0 <= i < s.len() implies keep(#[trigger] s[i]) by {
                if i < front.len() {
                    assert(front[i] == s[i]);
                }
            }
        }
    }
}

/// Every cell that a key has in a well-formed index is among the cells that the index lists.
pub proof fn lemma_found_is_listed(
    nodes: Map<Seq<u8>, CellNodeView>,
    node: Seq<u8>,
    key: Seq<u8>,
    depth: nat,
    fuel: nat,
)
    requires
        index_ok(nodes, node, depth),
        depth + fuel >= 33,
    ensures
        cells_below(nodes, node, fuel) is Some,
        cell_at(nodes, node, key, depth) matches Some(Some(m)) ==> cells_below(
            nodes,
            node,
            fuel,
        )->Some_0.contains(m),
    decreases 33 - depth,
{
    match nodes[node] {
        CellNodeView::Leaf(m) => {
            lemma_meta_index(m, key);
            let i = meta_index(m, key);
            if i < m.len() {
                assert(m[i] == find_meta(m, key)->0);
            }
        },
        CellNodeView::Branch(c) => {
            lemma_found_below(nodes, c, key, depth, (fuel - 1) as nat, c.len());
            lemma_child_index(c, key[depth as int]);
            let i = child_index(c, key[depth as int]);
            if i < c.len() {
                assert(index_ok(nodes, c[i].1, depth + 1));
            }
        },
    }
}

proof fn lemma_found_below(
    nodes: Map<Seq<u8>, CellNodeView>,
    c: Seq<ChildView>,
    key: Seq<u8>,
    depth: nat,
    fuel: nat,
    n: nat,
)
    requires
        n <= c.len(),
        depth < 32,
        depth + 1 + fuel >= 33,
        forall|i: int| 0 <= i < c.len() ==> index_ok(nodes, (#[trigger] c[i]).1, depth + 1),
    ensures
        cells_of(nodes, c, fuel, n) is Some,
        forall|i: int|
            0 <= i < n ==> (cell_at(nodes, (#[trigger] c[i]).1, key, depth + 1) matches Some(Some(m))
                ==> cells_of(nodes, c, fuel, n)->Some_0.contains(m)),
    decreases 33 - depth, n,
{
    if n > 0 {
        lemma_found_below(nodes, c, key, depth, fuel, (n - 1) as nat);
        lemma_found_is_listed(nodes, c[n - 1].1, key, depth + 1, fuel);
        let front = cells_of(nodes, c, fuel, (n - 1) as nat)->0;
        let last = cells_below(nodes, c[n - 1].1, fuel)->0;
        assert(cells_of(nodes, c, fuel, n) == Some(front + last));
        assert forall|i: int| 0 <= i < n implies (cell_at(
            nodes,
            (#[trigger] c[i]).1,
            key,
            depth + 1,
        ) matches Some(Some(m)) ==> (front + last).contains(m)) by {
            match cell_at(nodes, c[i].1, key, depth + 1) {
                Some(Some(m)) => {
                    if i < n - 1 {
                        let j = choose|j: int| 0 <= j < front.len() && front[j] == m;
                        assert((front + last)[j] == m);
                    } else {
                        let j = choose|j: int| 0 <= j < last.len() && last[j] == m;
                        assert((front + last)[front.len() + j] == m);
                    }
                },
                _ => {},
            }
        }
    }
}

} // verus!
