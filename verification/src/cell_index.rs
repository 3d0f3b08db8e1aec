//! The index of the cells of a module: a tree in the store that branches on the bytes of the
//! digests of the keys.
use vstd::prelude::*;

use crate::bytes::bytes_eq;
use crate::cbor::{cbor_printed, clone_bytes, encode_cbor, lemma_array_tree,
    lemma_round_trips_writable, round_trips, safe_depth, trees, writable, CborTree, CborValue};
use crate::cbor_map::{lemma_text_map_round_trips, text_map, Field, FieldMap};
use crate::hash::{sha256, ContentHash};
use crate::store::{or_insert, read_fails, write_fails, Store, StoreError, StoreFault, StoreNode,
    StoreResult};

pub mod laws;
pub mod listing;
pub mod memory;
pub mod whole;

verus! {

/// What the index keeps of a cell.
#[derive(Debug, PartialEq, Eq)]
pub struct CellMeta {
    pub key_hash: [u8; 32],
    pub key_bytes: Vec<u8>,
    pub state_hash: [u8; 32],
    pub size: u64,
    pub last_active_ns: u64,
}

/// The model of what the index keeps of a cell.
pub struct MetaView {
    pub key_hash: Seq<u8>,
    pub key_bytes: Seq<u8>,
    pub state_hash: Seq<u8>,
    pub size: u64,
    pub last_active_ns: u64,
}

impl View for CellMeta {
    type V = MetaView;

    open spec fn view(&self) -> MetaView {
        MetaView {
            key_hash: self.key_hash@,
            key_bytes: self.key_bytes@,
            state_hash: self.state_hash@,
            size: self.size,
            last_active_ns: self.last_active_ns,
        }
    }
}

impl CellMeta {
    /// A copy.
    pub fn copied(&self) -> (r: Self)
        ensures
            r@ == self@,
    {
        CellMeta {
            key_hash: self.key_hash,
            key_bytes: clone_bytes(&self.key_bytes),
            state_hash: self.state_hash,
            size: self.size,
            last_active_ns: self.last_active_ns,
        }
    }
}

/// A node of the index: cells, or children by a byte of the digest of the key.
#[derive(Debug)]
pub enum CellNode {
    Leaf(Vec<CellMeta>),
    Branch(Vec<(u8, [u8; 32])>),
}

/// A child: its byte and its digest.
pub type ChildView = (u8, Seq<u8>);

/// The model of a node.
pub enum CellNodeView {
    Leaf(Seq<MetaView>),
    Branch(Seq<ChildView>),
}

pub open spec fn metas_view(s: Seq<CellMeta>) -> Seq<MetaView> {
    Seq::new(s.len(), |i: int| s[i]@)
}

pub open spec fn children_view(s: Seq<(u8, [u8; 32])>) -> Seq<ChildView> {
    Seq::new(s.len(), |i: int| (s[i].0, s[i].1@))
}

impl View for CellNode {
    type V = CellNodeView;

    open spec fn view(&self) -> CellNodeView {
        match *self {
            CellNode::Leaf(m) => CellNodeView::Leaf(metas_view(m@)),
            CellNode::Branch(c) => CellNodeView::Branch(children_view(c@)),
        }
    }
}

/// The number of cells above which a leaf is split.
pub const LEAF_MAX: usize = 64;

/// Bytes as a list of numbers.
pub open spec fn numbers(b: Seq<u8>) -> CborTree {
    CborTree::Array(Seq::new(b.len(), |i: int| CborTree::Integer(b[i] as i128)))
}

pub open spec fn meta_fields(m: MetaView) -> Seq<Field> {
    seq![
        ("key_hash"@, numbers(m.key_hash)),
        ("key_bytes"@, CborTree::Bytes(m.key_bytes)),
        ("state_hash"@, numbers(m.state_hash)),
        ("size"@, CborTree::Integer(m.size as i128)),
        ("last_active_ns"@, CborTree::Integer(m.last_active_ns as i128)),
    ]
}

pub open spec fn child_cbor(c: ChildView) -> CborTree {
    CborTree::Array(seq![CborTree::Integer(c.0 as i128), numbers(c.1)])
}

/// The CBOR form of a node.
pub open spec fn cell_node_cbor(n: CellNodeView) -> CborTree {
    let field = match n {
        CellNodeView::Leaf(m) => (
            "Leaf"@,
            CborTree::Array(
                Seq::new(m.len(), |i: int| CborTree::Mapping(text_map(meta_fields(m[i])))),
            ),
        ),
        CellNodeView::Branch(c) => (
            "Branch"@,
            CborTree::Array(Seq::new(c.len(), |i: int| child_cbor(c[i]))),
        ),
    };
    CborTree::Mapping(text_map(seq![field]))
}

proof fn lemma_numbers(b: Seq<u8>, depth: nat)
    requires
        depth > 0,
    ensures
        round_trips(numbers(b), depth),
{
    let items = numbers(b)->Array_0;
    assert forall|i: int| 0 <= i < items.len() implies round_trips(
        #[trigger] items[i],
        (depth - 1) as nat,
    ) by {}
}

/// The form of a node is read back as it is written.
pub proof fn lemma_cell_node_round_trips(n: CellNodeView)
    ensures
        round_trips(cell_node_cbor(n), safe_depth()),
        writable(cell_node_cbor(n)),
{
    match n {
        CellNodeView::Leaf(m) => {
            let list = CborTree::Array(
                Seq::new(m.len(), |i: int| CborTree::Mapping(text_map(meta_fields(m[i])))),
            );
            let items = list->Array_0;
            assert forall|i: int| 0 <= i < items.len() implies round_trips(
                #[trigger] items[i],
                98,
            ) by {
                let f = meta_fields(m[i]);
                lemma_numbers(m[i].key_hash, 97);
                lemma_numbers(m[i].state_hash, 97);
                assert forall|k: int| 0 <= k < f.len() implies round_trips(
                    (#[trigger] f[k]).1,
                    97,
                ) by {
                    assert(k == 0 || k == 1 || k == 2 || k == 3 || k == 4);
                }
                lemma_text_map_round_trips(f, 97);
            }
            assert(round_trips(list, 99));
            lemma_text_map_round_trips(seq![("Leaf"@, list)], 99);
        },
        CellNodeView::Branch(c) => {
            let list = CborTree::Array(Seq::new(c.len(), |i: int| child_cbor(c[i])));
            let items = list->Array_0;
            assert forall|i: int| 0 <= i < items.len() implies round_trips(
                #[trigger] items[i],
                98,
            ) by {
                lemma_numbers(c[i].1, 97);
                let two = items[i]->Array_0;
                assert forall|k: int| 0 <= k < two.len() implies round_trips(
                    #[trigger] two[k],
                    97,
                ) by {
                    assert(k == 0 || k == 1);
                }
            }
            assert(round_trips(list, 99));
            lemma_text_map_round_trips(seq![("Branch"@, list)], 99);
        },
    }
    lemma_round_trips_writable(cell_node_cbor(n), safe_depth());
}

fn numbers_of(b: &[u8]) -> (r: CborValue)
    ensures
        r@ == numbers(b@),
{
    let mut items: Vec<CborValue> = Vec::new();
    let mut i: usize = 0;
    while i < b.len()
        invariant
            i <= b@.len(),
            items@.len() == i,
            forall|k: int|
                0 <= k < i ==> (#[trigger] items@[k])@ == CborTree::Integer(b@[k] as i128),
        decreases b@.len() - i,
    {
        items.push(CborValue::Integer(b[i] as i128));
        i += 1;
    }
    let r = CborValue::Array(items);
    proof {
        lemma_array_tree(r);
        assert(trees(items@) =~= numbers(b@)->Array_0);
    }
    r
}

fn meta_to_cbor(m: &CellMeta) -> (r: CborValue)
    ensures
        r@ == CborTree::Mapping(text_map(meta_fields(m@))),
{
    let mut f = FieldMap::new();
    f.put("key_hash", numbers_of(&m.key_hash));
    f.put("key_bytes", CborValue::Bytes(clone_bytes(&m.key_bytes)));
    f.put("state_hash", numbers_of(&m.state_hash));
    f.put("size", CborValue::Integer(m.size as i128));
    f.put("last_active_ns", CborValue::Integer(m.last_active_ns as i128));
    assert(f.fields@ =~= meta_fields(m@));
    f.finish()
}

fn child_to_cbor(c: &(u8, [u8; 32])) -> (r: CborValue)
    ensures
        r@ == child_cbor((c.0, c.1@)),
{
    let mut two: Vec<CborValue> = Vec::new();
    two.push(CborValue::Integer(c.0 as i128));
    two.push(numbers_of(&c.1));
    let r = CborValue::Array(two);
    proof {
        lemma_array_tree(r);
        assert(trees(two@) =~= child_cbor((c.0, c.1@))->Array_0);
    }
    r
}

impl StoreNode for CellNode {
    open spec fn encoding(v: CellNodeView) -> Result<Seq<u8>, Seq<char>> {
        cbor_printed(cell_node_cbor(v))
    }

    fn encode(&self) -> (r: Result<Vec<u8>, String>) {
        let mut f = FieldMap::new();
        match self {
            CellNode::Leaf(m) => {
                let mut items: Vec<CborValue> = Vec::new();
                let mut i: usize = 0;
                while i < m.len()
                    invariant
                        i <= m@.len(),
                        items@.len() == i,
                        forall|k: int|
                            0 <= k < i ==> (#[trigger] items@[k])@ == CborTree::Mapping(
                                text_map(meta_fields(m@[k]@)),
                            ),
                    decreases m@.len() - i,
                {
                    items.push(meta_to_cbor(&m[i]));
                    i += 1;
                }
                let list = CborValue::Array(items);
                proof {
                    lemma_array_tree(list);
                    assert(trees(items@) =~= Seq::new(
                        metas_view(m@).len(),
                        |i: int| CborTree::Mapping(text_map(meta_fields(metas_view(m@)[i]))),
                    ));
                }
                f.put("Leaf", list);
                assert(f.fields@ =~= seq![("Leaf"@, list@)]);
            },
            CellNode::Branch(c) => {
                let mut items: Vec<CborValue> = Vec::new();
                let mut i: usize = 0;
                while i < c.len()
                    invariant
                        i <= c@.len(),
                        items@.len() == i,
                        forall|k: int|
                            0 <= k < i ==> (#[trigger] items@[k])@ == child_cbor(
                                (c@[k].0, c@[k].1@),
                            ),
                    decreases c@.len() - i,
                {
                    items.push(child_to_cbor(&c[i]));
                    i += 1;
                }
                let list = CborValue::Array(items);
                proof {
                    lemma_array_tree(list);
                    assert(trees(items@) =~= Seq::new(
                        children_view(c@).len(),
                        |i: int| child_cbor(children_view(c@)[i]),
                    ));
                }
                f.put("Branch", list);
                assert(f.fields@ =~= seq![("Branch"@, list@)]);
            },
        }
        let value = f.finish();
        proof {
            lemma_cell_node_round_trips(self@);
        }
        encode_cbor(&value)
    }

    fn copied(&self) -> (r: Self) {
        match self {
            CellNode::Leaf(m) => {
                let r = CellNode::Leaf(copy_metas(m));
                r
            },
            CellNode::Branch(c) => CellNode::Branch(copy_children(c)),
        }
    }
}

fn copy_metas(m: &Vec<CellMeta>) -> (r: Vec<CellMeta>)
    ensures
        metas_view(r@) == metas_view(m@),
{
    let mut out: Vec<CellMeta> = Vec::new();
    let mut i: usize = 0;
    while i < m.len()
        invariant
            i <= m@.len(),
            out@.len() == i,
            forall|k: int| 0 <= k < i ==> (#[trigger] out@[k])@ == m@[k]@,
        decreases m@.len() - i,
    {
        out.push(m[i].copied());
        i += 1;
    }
    assert(metas_view(out@) =~= metas_view(m@));
    out
}

fn copy_children(c: &Vec<(u8, [u8; 32])>) -> (r: Vec<(u8, [u8; 32])>)
    ensures
        r@ == c@,
{
    let mut out: Vec<(u8, [u8; 32])> = Vec::new();
    let mut i: usize = 0;
    while i < c.len()
        invariant
            i <= c@.len(),
            out@ == c@.take(i as int),
        decreases c@.len() - i,
    {
        out.push(c[i]);
        assert(c@.take(i + 1) =~= c@.take(i as int).push(c@[i as int]));
        i += 1;
    }
    assert(c@.take(i as int) =~= c@);
    out
}

/// The first cell with a given digest of its key.
pub open spec fn find_meta(s: Seq<MetaView>, key: Seq<u8>) -> Option<MetaView>
    decreases s.len(),
{
    if s.len() == 0 {
        None
    } else if s[0].key_hash == key {
        Some(s[0])
    } else {
        find_meta(s.drop_first(), key)
    }
}

/// The position of the first cell with a given digest of its key, or the number of cells.
pub open spec fn meta_index(s: Seq<MetaView>, key: Seq<u8>) -> int
    decreases s.len(),
{
    if s.len() == 0 {
        0
    } else if s[0].key_hash == key {
        0
    } else {
        1 + meta_index(s.drop_first(), key)
    }
}

/// The position of the first child for a byte, or the number of children.
pub open spec fn child_index(s: Seq<ChildView>, byte: u8) -> int
    decreases s.len(),
{
    if s.len() == 0 {
        0
    } else if s[0].0 == byte {
        0
    } else {
        1 + child_index(s.drop_first(), byte)
    }
}

pub proof fn lemma_meta_index(s: Seq<MetaView>, key: Seq<u8>)
    ensures
        0 <= meta_index(s, key) <= s.len(),
        meta_index(s, key) < s.len() ==> s[meta_index(s, key)].key_hash == key,
        find_meta(s, key) == (if meta_index(s, key) < s.len() {
            Some(s[meta_index(s, key)])
        } else {
            None
        }),
        forall|i: int| 0 <= i < meta_index(s, key) ==> (#[trigger] s[i]).key_hash != key,
    decreases s.len(),
{
    if s.len() > 0 && s[0].key_hash != key {
        lemma_meta_index(s.drop_first(), key);
        assert forall|i: int| 0 <= i < meta_index(s, key) implies (#[trigger] s[i]).key_hash
            != key by {
            if i > 0 {
                assert(s.drop_first()[i - 1] == s[i]);
            }
        }
    }
}

pub proof fn lemma_child_index(s: Seq<ChildView>, byte: u8)
    ensures
        0 <= child_index(s, byte) <= s.len(),
        child_index(s, byte) < s.len() ==> s[child_index(s, byte)].0 == byte,
        forall|i: int| 0 <= i < child_index(s, byte) ==> (#[trigger] s[i]).0 != byte,
    decreases s.len(),
{
    if s.len() > 0 && s[0].0 != byte {
        lemma_child_index(s.drop_first(), byte);
        assert forall|i: int| 0 <= i < child_index(s, byte) implies (#[trigger] s[i]).0
            != byte by {
            if i > 0 {
                assert(s.drop_first()[i - 1] == s[i]);
            }
        }
    }
}

proof fn lemma_child_index_is(s: Seq<ChildView>, byte: u8, k: int)
    requires
        0 <= k <= s.len(),
        k < s.len() ==> s[k].0 == byte,
        forall|i: int| 0 <= i < k ==> (#[trigger] s[i]).0 != byte,
    ensures
        child_index(s, byte) == k,
{
    lemma_child_index(s, byte);
    let j = child_index(s, byte);
    if j < k {
        assert(s[j].0 != byte);
    }
    if k < j {
        assert(s[k].0 != byte);
    }
}

proof fn lemma_meta_index_is(s: Seq<MetaView>, key: Seq<u8>, k: int)
    requires
        0 <= k <= s.len(),
        k < s.len() ==> s[k].key_hash == key,
        forall|i: int| 0 <= i < k ==> (#[trigger] s[i]).key_hash != key,
    ensures
        meta_index(s, key) == k,
{
    lemma_meta_index(s, key);
    let j = meta_index(s, key);
    if j < k {
        assert(s[j].key_hash != key);
    }
    if k < j {
        assert(s[k].key_hash != key);
    }
}

fn position_of(entries: &Vec<CellMeta>, key: &[u8; 32]) -> (r: usize)
    ensures
        r == meta_index(metas_view(entries@), key@),
        r <= entries@.len(),
{
    let ghost s = metas_view(entries@);
    let mut i: usize = 0;
    while i < entries.len()
        invariant
            i <= entries@.len(),
            s == metas_view(entries@),
            forall|k: int| 0 <= k < i ==> (#[trigger] s[k]).key_hash != key@,
        decreases entries@.len() - i,
    {
        assert(s[i as int] == entries@[i as int]@);
        if bytes_eq(&entries[i].key_hash, key) {
            proof {
                lemma_meta_index_is(s, key@, i as int);
            }
            return i;
        }
        i += 1;
    }
    proof {
        lemma_meta_index_is(s, key@, i as int);
    }
    i
}

fn child_position(children: &Vec<(u8, [u8; 32])>, byte: u8) -> (r: usize)
    ensures
        r == child_index(children_view(children@), byte),
        r <= children@.len(),
{
    let ghost s = children_view(children@);
    let mut i: usize = 0;
    while i < children.len()
        invariant
            i <= children@.len(),
            s == children_view(children@),
            forall|k: int| 0 <= k < i ==> (#[trigger] s[k]).0 != byte,
        decreases children@.len() - i,
    {
        assert(s[i as int].0 == children@[i as int].0);
        if children[i].0 == byte {
            proof {
                lemma_child_index_is(s, byte, i as int);
            }
            return i;
        }
        i += 1;
    }
    proof {
        lemma_child_index_is(s, byte, i as int);
    }
    i
}

/// What the index has for a key, from a node at a given depth on; nothing where a node is missing
/// from the store.
pub open spec fn cell_at(
    nodes: Map<Seq<u8>, CellNodeView>,
    node: Seq<u8>,
    key: Seq<u8>,
    depth: nat,
) -> Option<Option<MetaView>>
    decreases 33 - depth,
{
    if !nodes.contains_key(node) {
        None
    } else {
        match nodes[node] {
            CellNodeView::Leaf(m) => Some(find_meta(m, key)),
            CellNodeView::Branch(c) => if depth >= 32 {
                Some(None)
            } else {
                let i = child_index(c, key[depth as int]);
                if i < c.len() {
                    cell_at(nodes, c[i].1, key, depth + 1)
                } else {
                    Some(None)
                }
            },
        }
    }
}

pub open spec fn meta_view(m: Option<CellMeta>) -> Option<MetaView> {
    match m {
        Some(x) => Some(x@),
        None => None,
    }
}

/// A store of cells while it is written to: its nodes, and whether every node went where it
/// belongs, because its digest was free or held the same node.
pub struct CellSt {
    pub nodes: Map<Seq<u8>, CellNodeView>,
    pub clean: bool,
}

/// The digest of a node.
pub open spec fn cell_digest(v: CellNodeView) -> Seq<u8> {
    sha256(CellNode::encoding(v)->Ok_0)
}

/// The store with one more node.
pub open spec fn cell_put(st: CellSt, v: CellNodeView) -> CellSt {
    let nodes = or_insert(st.nodes, cell_digest(v), v);
    CellSt { nodes, clean: st.clean && nodes[cell_digest(v)] == v }
}

/// The byte of a key at a depth; zero beyond the end.
pub open spec fn byte_at(key: Seq<u8>, depth: nat) -> u8 {
    if depth < 32 {
        key[depth as int]
    } else {
        0
    }
}

fn key_byte(key: &[u8; 32], depth: u64) -> (r: u8)
    ensures
        r == byte_at(key@, depth as nat),
{
    if depth < 32 {
        key[depth as usize]
    } else {
        0
    }
}

/// The cells whose key has a given byte at a depth, in order.
pub open spec fn bucket(s: Seq<MetaView>, depth: nat, byte: u8) -> Seq<MetaView> {
    s.filter(|m: MetaView| byte_at(m.key_hash, depth) == byte)
}

/// The children for the bytes below `b` that a split leaf gets, and the store that holds them.
pub open spec fn split_children(st: CellSt, s: Seq<MetaView>, depth: nat, b: nat) -> (
    Seq<ChildView>,
    CellSt,
)
    decreases b,
{
    if b == 0 {
        (Seq::empty(), st)
    } else {
        let (done, mid) = split_children(st, s, depth, (b - 1) as nat);
        let part = bucket(s, depth, (b - 1) as u8);
        if part.len() == 0 {
            (done, mid)
        } else {
            let leaf = CellNodeView::Leaf(part);
            (done.push(((b - 1) as u8, cell_digest(leaf))), cell_put(mid, leaf))
        }
    }
}

/// A leaf that has become a branch.
pub open spec fn split_leaf(st: CellSt, s: Seq<MetaView>, depth: nat) -> (Seq<u8>, CellSt) {
    let (children, mid) = split_children(st, s, depth, 256);
    let node = CellNodeView::Branch(children);
    (cell_digest(node), cell_put(mid, node))
}

/// Children with `c` behind those whose byte is not greater.
pub open spec fn child_placed(s: Seq<ChildView>, c: ChildView) -> Seq<ChildView>
    decreases s.len(),
{
    if s.len() == 0 {
        seq![c]
    } else if c.0 < s.last().0 {
        child_placed(s.drop_last(), c).push(s.last())
    } else {
        s.push(c)
    }
}

/// Children in the order of their bytes.
pub open spec fn by_byte(s: Seq<ChildView>) -> Seq<ChildView>
    decreases s.len(),
{
    if s.len() == 0 {
        s
    } else {
        child_placed(by_byte(s.drop_last()), s.last())
    }
}

/// The root and the store after a cell has been put into the index; nothing where a node is
/// missing from the store.
pub open spec fn inserted(st: CellSt, node: Seq<u8>, meta: MetaView, depth: nat) -> Option<
    (Seq<u8>, CellSt),
>
    decreases u64::MAX - depth,
{
    if !st.nodes.contains_key(node) {
        None
    } else {
        match st.nodes[node] {
            CellNodeView::Leaf(m) => {
                let i = meta_index(m, meta.key_hash);
                if i < m.len() {
                    let leaf = CellNodeView::Leaf(m.update(i, meta));
                    Some((cell_digest(leaf), cell_put(st, leaf)))
                } else if m.len() + 1 > LEAF_MAX && depth < 32 {
                    Some(split_leaf(st, m.push(meta), depth))
                } else {
                    let leaf = CellNodeView::Leaf(m.push(meta));
                    Some((cell_digest(leaf), cell_put(st, leaf)))
                }
            },
            CellNodeView::Branch(c) => {
                let byte = byte_at(meta.key_hash, depth);
                let i = child_index(c, byte);
                if i < c.len() {
                    if depth >= u64::MAX {
                        None
                    } else {
                        match inserted(st, c[i].1, meta, depth + 1) {
                            None => None,
                            Some((child, mid)) => {
                                let branch = CellNodeView::Branch(c.update(i, (c[i].0, child)));
                                Some((cell_digest(branch), cell_put(mid, branch)))
                            },
                        }
                    }
                } else {
                    let leaf = CellNodeView::Leaf(seq![meta]);
                    let branch = CellNodeView::Branch(
                        by_byte(c.push((byte, cell_digest(leaf)))),
                    );
                    Some((cell_digest(branch), cell_put(cell_put(st, leaf), branch)))
                }
            },
        }
    }
}

/// The root, whether a cell was removed, and the store after a key has been taken out of the
/// index. There is no root where nothing is left.
pub open spec fn deleted(st: CellSt, node: Seq<u8>, key: Seq<u8>, depth: nat) -> Option<
    (Option<Seq<u8>>, bool, CellSt),
>
    decreases 33 - depth,
{
    if !st.nodes.contains_key(node) {
        None
    } else {
        match st.nodes[node] {
            CellNodeView::Leaf(m) => {
                let rest = m.filter(|x: MetaView| x.key_hash != key);
                if rest.len() == 0 {
                    Some((None, m.len() != 0, st))
                } else {
                    let leaf = CellNodeView::Leaf(rest);
                    Some((Some(cell_digest(leaf)), m.len() != rest.len(), cell_put(st, leaf)))
                }
            },
            CellNodeView::Branch(c) => if depth >= 32 {
                Some((Some(node), false, st))
            } else {
                let i = child_index(c, key[depth as int]);
                if i >= c.len() {
                    Some((Some(node), false, st))
                } else {
                    match deleted(st, c[i].1, key, depth + 1) {
                        None => None,
                        Some((child, removed, mid)) => if !removed {
                            Some((Some(node), false, mid))
                        } else {
                            let left = match child {
                                Some(h) => c.update(i, (c[i].0, h)),
                                None => c.remove(i),
                            };
                            if left.len() == 0 {
                                Some((None, true, mid))
                            } else {
                                let branch = CellNodeView::Branch(left);
                                Some((Some(cell_digest(branch)), true, cell_put(mid, branch)))
                            }
                        },
                    }
                }
            },
        }
    }
}

/// The root, whether a cell was removed, and the store after a key has been taken out of the index;
/// where nothing is left the root is that of the empty index.
pub open spec fn key_deleted(st: CellSt, root: Seq<u8>, key: Seq<u8>) -> Option<
    (Seq<u8>, bool, CellSt),
> {
    let leaf = CellNodeView::Leaf(Seq::empty());
    match deleted(st, root, key, 0) {
        None => None,
        Some((Some(h), gone, after)) => Some((h, gone, after)),
        Some((None, gone, mid)) => Some((cell_digest(leaf), gone, cell_put(mid, leaf))),
    }
}

/// All cells below a node, in the order of the tree; at most `fuel` levels.
pub open spec fn cells_below(nodes: Map<Seq<u8>, CellNodeView>, node: Seq<u8>, fuel: nat) -> Option<
    Seq<MetaView>,
>
    decreases fuel, 1nat, 0nat,
{
    if fuel == 0 || !nodes.contains_key(node) {
        None
    } else {
        match nodes[node] {
            CellNodeView::Leaf(m) => Some(m),
            CellNodeView::Branch(c) => cells_of(nodes, c, (fuel - 1) as nat, c.len()),
        }
    }
}

/// The cells below the first `n` children.
pub open spec fn cells_of(
    nodes: Map<Seq<u8>, CellNodeView>,
    c: Seq<ChildView>,
    fuel: nat,
    n: nat,
) -> Option<Seq<MetaView>>
    decreases fuel, 2nat, n,
{
    if n == 0 || n > c.len() {
        Some(Seq::empty())
    } else {
        match (cells_of(nodes, c, fuel, (n - 1) as nat), cells_below(nodes, c[n - 1].1, fuel)) {
            (Some(a), Some(b)) => Some(a + b),
            _ => None,
        }
    }
}

/// Whether `e` is what a store may answer that holds the nodes of `st` and is handed a node. It
/// then holds them still.
pub open spec fn refused<S: Store<CellNode>>(
    st: CellSt,
    v: CellNodeView,
    e: StoreError,
    left: Map<Seq<u8>, CellNodeView>,
) -> bool {
    left == st.nodes && exists|s: S| s.nodes() == left && #[trigger] write_fails::<CellNode, S>(
        s,
        v,
        e,
    )
}

/// The error of an index that is deeper than can be counted.
pub open spec fn is_too_deep(e: StoreError) -> bool {
    e@ == (StoreFault::Io { path: "memory://Node"@, reason: "cell index too deep"@ })
}

/// Whether looking a key up from a node on comes to an error: a node on the way that the store does
/// not give.
pub open spec fn get_fails<S: Store<CellNode>>(
    store: S,
    node: Seq<u8>,
    key: Seq<u8>,
    depth: nat,
    e: StoreError,
) -> bool
    decreases 33 - depth,
{
    ||| read_fails::<CellNode, S>(store, node, e)
    ||| store.nodes().contains_key(node) && match store.nodes()[node] {
        CellNodeView::Leaf(_) => false,
        CellNodeView::Branch(c) => depth < 32 && {
            let i = child_index(c, key[depth as int]);
            i < c.len() && get_fails(store, c[i].1, key, depth + 1, e)
        },
    }
}

/// Whether listing the cells below a node comes to an error: the first node in the order of the
/// tree that the store does not give, or one that is too deep.
pub open spec fn cells_fail<S: Store<CellNode>>(
    store: S,
    node: Seq<u8>,
    fuel: nat,
    e: StoreError,
) -> bool
    decreases fuel,
{
    if fuel == 0 {
        is_too_deep(e)
    } else {
        ||| read_fails::<CellNode, S>(store, node, e)
        ||| store.nodes().contains_key(node) && match store.nodes()[node] {
            CellNodeView::Leaf(_) => false,
            CellNodeView::Branch(c) => exists|i: int|
                0 <= i < c.len() && cells_of(store.nodes(), c, (fuel - 1) as nat, i as nat) is Some
                    && cells_fail(store, (#[trigger] c[i]).1, (fuel - 1) as nat, e),
        }
    }
}

/// Whether turning a leaf into a branch comes to an error: a leaf for one of the bytes, or the
/// branch, that the store does not take. `left` are the nodes that it then holds.
pub open spec fn split_fails<S: Store<CellNode>>(
    st: CellSt,
    s: Seq<MetaView>,
    depth: nat,
    e: StoreError,
    left: Map<Seq<u8>, CellNodeView>,
) -> bool {
    ||| exists|b: nat|
        b < 256 && bucket(s, depth, b as u8).len() > 0 && #[trigger] refused::<S>(
            split_children(st, s, depth, b).1,
            CellNodeView::Leaf(bucket(s, depth, b as u8)),
            e,
            left,
        )
    ||| refused::<S>(
        split_children(st, s, depth, 256).1,
        CellNodeView::Branch(split_children(st, s, depth, 256).0),
        e,
        left,
    )
}

/// Whether putting a cell into the index comes to an error: a node on the way that the store does
/// not give, or one that it does not take. `left` are the nodes that it then holds.
pub open spec fn insert_fails<S: Store<CellNode>>(
    store: S,
    st: CellSt,
    node: Seq<u8>,
    meta: MetaView,
    depth: nat,
    e: StoreError,
    left: Map<Seq<u8>, CellNodeView>,
) -> bool
    decreases u64::MAX - depth,
{
    ||| read_fails::<CellNode, S>(store, node, e) && left == st.nodes
    ||| st.nodes.contains_key(node) && match st.nodes[node] {
        CellNodeView::Leaf(m) => {
            let i = meta_index(m, meta.key_hash);
            if i < m.len() {
                refused::<S>(st, CellNodeView::Leaf(m.update(i, meta)), e, left)
            } else if m.len() + 1 > LEAF_MAX && depth < 32 {
                split_fails::<S>(st, m.push(meta), depth, e, left)
            } else {
                refused::<S>(st, CellNodeView::Leaf(m.push(meta)), e, left)
            }
        },
        CellNodeView::Branch(c) => {
            let byte = byte_at(meta.key_hash, depth);
            let i = child_index(c, byte);
            if i < c.len() {
                if depth >= u64::MAX {
                    is_too_deep(e) && left == st.nodes
                } else {
                    ||| insert_fails(store, st, c[i].1, meta, depth + 1, e, left)
                    ||| inserted(st, c[i].1, meta, depth + 1) matches Some((child, mid))
                        && refused::<S>(
                        mid,
                        CellNodeView::Branch(c.update(i, (c[i].0, child))),
                        e,
                        left,
                    )
                }
            } else {
                let leaf = CellNodeView::Leaf(seq![meta]);
                ||| refused::<S>(st, leaf, e, left)
                ||| refused::<S>(
                    cell_put(st, leaf),
                    CellNodeView::Branch(by_byte(c.push((byte, cell_digest(leaf))))),
                    e,
                    left,
                )
            }
        },
    }
}

/// Whether taking a key out of the index comes to an error: a node on the way that the store does
/// not give, or one that it does not take. `left` are the nodes that it then holds.
pub open spec fn delete_fails<S: Store<CellNode>>(
    store: S,
    st: CellSt,
    node: Seq<u8>,
    key: Seq<u8>,
    depth: nat,
    e: StoreError,
    left: Map<Seq<u8>, CellNodeView>,
) -> bool
    decreases 33 - depth,
{
    ||| read_fails::<CellNode, S>(store, node, e) && left == st.nodes
    ||| st.nodes.contains_key(node) && match st.nodes[node] {
        CellNodeView::Leaf(m) => {
            let rest = m.filter(|x: MetaView| x.key_hash != key);
            rest.len() > 0 && refused::<S>(st, CellNodeView::Leaf(rest), e, left)
        },
        CellNodeView::Branch(c) => depth < 32 && {
            let i = child_index(c, key[depth as int]);
            i < c.len() && {
                ||| delete_fails(store, st, c[i].1, key, depth + 1, e, left)
                ||| deleted(st, c[i].1, key, depth + 1) matches Some((child, removed, mid))
                    && removed && {
                    let rest = match child {
                        Some(h) => c.update(i, (c[i].0, h)),
                        None => c.remove(i),
                    };
                    rest.len() > 0 && refused::<S>(mid, CellNodeView::Branch(rest), e, left)
                }
            }
        },
    }
}

fn put_cell<S: Store<CellNode>>(store: &mut S, node: CellNode, Ghost(clean): Ghost<bool>) -> (r:
    StoreResult<ContentHash>)
    ensures
        final(store).blobs() == old(store).blobs(),
        match r {
            Ok(h) => h@ == cell_digest(node@) && final(store).nodes() == cell_put(
                CellSt { nodes: old(store).nodes(), clean },
                node@,
            ).nodes,
            Err(e) => refused::<S>(
                CellSt { nodes: old(store).nodes(), clean },
                node@,
                e,
                final(store).nodes(),
            ),
        },
{
    let r = store.put_node(&node);
    proof {
        if r is Err {
            assert(write_fails::<CellNode, S>(*old(store), node@, r->Err_0));
        }
    }
    r
}

/// The index of the cells of a module.
#[derive(Debug)]
pub struct CellIndex;

impl CellIndex {
    /// The root of an index without cells.
    pub fn empty<S: Store<CellNode>>(store: &mut S) -> (r: StoreResult<ContentHash>)
        ensures
            final(store).blobs() == old(store).blobs(),
            ({
                let leaf = CellNodeView::Leaf(Seq::empty());
                match r {
                    Ok(h) => h@ == cell_digest(leaf) && final(store).nodes() == or_insert(
                        old(store).nodes(),
                        h@,
                        leaf,
                    ),
                    Err(e) => refused::<S>(
                        CellSt { nodes: old(store).nodes(), clean: true },
                        leaf,
                        e,
                        final(store).nodes(),
                    ),
                }
            }),
    {
        let node = CellNode::Leaf(Vec::new());
        assert(metas_view(node->Leaf_0@) =~= Seq::empty());
        put_cell(store, node, Ghost(true))
    }

    /// What the index has for a key.
    pub fn get<S: Store<CellNode>>(store: &S, root: ContentHash, key_hash: &[u8; 32]) -> (r:
        StoreResult<Option<CellMeta>>)
        ensures
            match r {
                Ok(m) => cell_at(store.nodes(), root@, key_hash@, 0) == Some(meta_view(m)),
                Err(e) => get_fails(*store, root@, key_hash@, 0, e),
            },
    {
        let ghost nodes = store.nodes();
        let mut node_hash: ContentHash = root;
        let mut depth: usize = 0;
        loop
            invariant
                depth <= 32,
                nodes == store.nodes(),
                cell_at(nodes, root@, key_hash@, 0) == cell_at(
                    nodes,
                    node_hash@,
                    key_hash@,
                    depth as nat,
                ),
                forall|e: StoreError| #[trigger]
                    get_fails(*store, node_hash@, key_hash@, depth as nat, e) ==> get_fails(
                        *store,
                        root@,
                        key_hash@,
                        0,
                        e,
                    ),
            decreases 33 - depth,
        {
            match store.get_node(node_hash) {
                Err(e) => {
                    assert(get_fails(*store, node_hash@, key_hash@, depth as nat, e));
                    return Err(e);
                },
                Ok(CellNode::Leaf(entries)) => {
                    let i: usize = position_of(&entries, key_hash);
                    proof {
                        lemma_meta_index(metas_view(entries@), key_hash@);
                    }
                    if i < entries.len() {
                        return Ok(Some(entries[i].copied()));
                    }
                    return Ok(None);
                },
                Ok(CellNode::Branch(children)) => {
                    if depth >= 32 {
                        return Ok(None);
                    }
                    let i: usize = child_position(&children, key_hash[depth]);
                    if i >= children.len() {
                        return Ok(None);
                    }
                    let ghost from = node_hash@;
                    node_hash = ContentHash::from_array(children[i].1);
                    depth += 1;
                    assert forall|e: StoreError| #[trigger]
                        get_fails(*store, node_hash@, key_hash@, depth as nat, e) implies get_fails(
                        *store,
                        root@,
                        key_hash@,
                        0,
                        e,
                    ) by {
                        assert(get_fails(*store, from, key_hash@, (depth - 1) as nat, e));
                    }
                },
            }
        }
    }

    /// Puts a cell into the index, in place of the one with its key: returns the new root.
    pub fn upsert<S: Store<CellNode>>(store: &mut S, root: ContentHash, meta: CellMeta) -> (r:
        StoreResult<ContentHash>)
        ensures
            final(store).blobs() == old(store).blobs(),
            ({
                let st = CellSt { nodes: old(store).nodes(), clean: true };
                match r {
                    Ok(h) => {
                        let done = inserted(st, root@, meta@, 0);
                        done is Some && done->Some_0.0 == h@ && done->Some_0.1.nodes == final(store).nodes()
                    },
                    Err(e) => insert_fails(
                        *old(store),
                        st,
                        root@,
                        meta@,
                        0,
                        e,
                        final(store).nodes(),
                    ),
                }
            }),
    {
        insert_at(store, root, meta, 0, Ghost(true))
    }

    /// Takes a key out of the index: returns the new root, and whether the key was there.
    pub fn delete<S: Store<CellNode>>(store: &mut S, root: ContentHash, key_hash: &[u8; 32]) -> (r:
        StoreResult<(ContentHash, bool)>)
        ensures
            final(store).blobs() == old(store).blobs(),
            ({
                let st = CellSt { nodes: old(store).nodes(), clean: true };
                let done = deleted(st, root@, key_hash@, 0);
                let leaf = CellNodeView::Leaf(Seq::empty());
                match r {
                    Ok((h, gone)) => {
                        let all = key_deleted(st, root@, key_hash@);
                        &&& all is Some
                        &&& h@ == all->Some_0.0
                        &&& gone == all->Some_0.1
                        &&& final(store).nodes() == all->Some_0.2.nodes
                    },
                    Err(e) => {
                        ||| delete_fails(
                            *old(store),
                            st,
                            root@,
                            key_hash@,
                            0,
                            e,
                            final(store).nodes(),
                        )
                        ||| done matches Some((None, _, mid)) && refused::<S>(
                            mid,
                            leaf,
                            e,
                            final(store).nodes(),
                        )
                    },
                }
            }),
    {
        match delete_at(store, root, key_hash, 0, Ghost(true)) {
            Err(e) => Err(e),
            Ok((Some(h), gone)) => Ok((h, gone)),
            Ok((None, gone)) => match Self::empty(store) {
                Ok(h) => Ok((h, gone)),
                Err(e) => Err(e),
            },
        }
    }

    /// All cells of the index, in the order of the tree.
    pub fn iter<S: Store<CellNode>>(store: &S, root: ContentHash) -> (r: StoreResult<
        Vec<CellMeta>,
    >)
        ensures
            match r {
                Ok(v) => cells_below(store.nodes(), root@, u64::MAX as nat) == Some(metas_view(v@)),
                Err(e) => cells_fail(*store, root@, u64::MAX as nat, e),
            },
    {
        let mut out: Vec<CellMeta> = Vec::new();
        assert(metas_view(out@) =~= Seq::empty());
        match collect_cells(store, root, 0xFFFF_FFFF_FFFF_FFFF, &mut out) {
            Ok(_) => {
                proof {
                    let all = cells_below(store.nodes(), root@, u64::MAX as nat)->0;
                    assert(Seq::<MetaView>::empty() + all =~= all);
                }
                Ok(out)
            },
            Err(e) => Err(e),
        }
    }
}

fn too_deep() -> (r: StoreError)
    ensures
        is_too_deep(r),
{
    StoreError::Io {
        path: "memory://Node".to_owned(),
        reason: "cell index too deep".to_owned(),
    }
}

fn collect_cells<S: Store<CellNode>>(
    store: &S,
    node: ContentHash,
    fuel: u64,
    out: &mut Vec<CellMeta>,
) -> (r: StoreResult<()>)
    ensures
        match r {
            Ok(_) => {
                let below = cells_below(store.nodes(), node@, fuel as nat);
                below is Some && metas_view(final(out)@) == metas_view(old(out)@) + below->0
            },
            Err(e) => cells_fail(*store, node@, fuel as nat, e),
        },
    decreases fuel,
{
    if fuel == 0 {
        return Err(too_deep());
    }
    let ghost nodes = store.nodes();
    let ghost start = metas_view(out@);
    match store.get_node(node) {
        Err(e) => Err(e),
        Ok(CellNode::Leaf(entries)) => {
            let mut more = entries;
            let ghost a = out@;
            let ghost b = more@;
            out.append(&mut more);
            assert(metas_view(out@) =~= metas_view(a) + metas_view(b));
            Ok(())
        },
        Ok(CellNode::Branch(children)) => {
            let ghost c = children_view(children@);
            let ghost f = (fuel - 1) as nat;
            let mut i: usize = 0;
            assert(start + Seq::empty() =~= start);
            while i < children.len()
                invariant
                    i <= children@.len(),
                    fuel > 0,
                    f == (fuel - 1) as nat,
                    nodes == store.nodes(),
                    nodes.contains_key(node@),
                    nodes[node@] == CellNodeView::Branch(c),
                    c == children_view(children@),
                    cells_of(nodes, c, f, i as nat) is Some,
                    metas_view(out@) == start + cells_of(nodes, c, f, i as nat)->0,
                decreases children@.len() - i,
            {
                assert(c[i as int].1 == children@[i as int].1@);
                let ghost done = cells_of(nodes, c, f, i as nat)->0;
                let h = ContentHash::from_array(children[i].1);
                match collect_cells(store, h, fuel - 1, out) {
                    Ok(_) => {},
                    Err(e) => {
                        assert(cells_fail(*store, c[i as int].1, f, e));
                        return Err(e);
                    },
                }
                proof {
                    let below = cells_below(nodes, c[i as int].1, f)->0;
                    assert(start + done + below =~= start + (done + below));
                }
                i += 1;
            }
            Ok(())
        },
    }
}

fn pick_bucket(entries: &Vec<CellMeta>, depth: u64, byte: u8) -> (r: Vec<CellMeta>)
    ensures
        metas_view(r@) == bucket(metas_view(entries@), depth as nat, byte),
{
    let ghost all = metas_view(entries@);
    let ghost keep = |m: MetaView| byte_at(m.key_hash, depth as nat) == byte;
    let mut out: Vec<CellMeta> = Vec::new();
    let mut i: usize = 0;
    proof {
        assert(all.take(0) =~= Seq::empty());
        reveal(Seq::filter);
        assert(metas_view(out@) =~= all.take(0).filter(keep));
    }
    while i < entries.len()
        invariant
            i <= entries@.len(),
            all == metas_view(entries@),
            keep == (|m: MetaView| byte_at(m.key_hash, depth as nat) == byte),
            metas_view(out@) == all.take(i as int).filter(keep),
        decreases entries@.len() - i,
    {
        let ghost sofar = metas_view(out@);
        proof {
            reveal(Seq::filter);
            assert(all.take(i + 1).drop_last() =~= all.take(i as int));
            assert(all.take(i + 1).last() == all[i as int]);
        }
        if key_byte(&entries[i].key_hash, depth) == byte {
            out.push(entries[i].copied());
            assert(metas_view(out@) =~= sofar.push(all[i as int]));
        }
        i += 1;
    }
    assert(all.take(i as int) =~= all);
    out
}

fn split<S: Store<CellNode>>(
    store: &mut S,
    entries: &Vec<CellMeta>,
    depth: u64,
    Ghost(clean): Ghost<bool>,
) -> (r: StoreResult<ContentHash>)
    ensures
        final(store).blobs() == old(store).blobs(),
        ({
            let st = CellSt { nodes: old(store).nodes(), clean };
            let s = metas_view(entries@);
            match r {
                Ok(h) => {
                    let done = split_leaf(st, s, depth as nat);
                    done.0 == h@ && done.1.nodes == final(store).nodes()
                },
                Err(e) => split_fails::<S>(st, s, depth as nat, e, final(store).nodes()),
            }
        }),
{
    let ghost st = CellSt { nodes: store.nodes(), clean };
    let ghost s = metas_view(entries@);
    let mut children: Vec<(u8, [u8; 32])> = Vec::new();
    let mut b: u16 = 0;
    assert(children_view(children@) =~= Seq::empty());
    while b < 256
        invariant
            b <= 256,
            st == (CellSt { nodes: old(store).nodes(), clean }),
            s == metas_view(entries@),
            store.blobs() == old(store).blobs(),
            children_view(children@) == split_children(st, s, depth as nat, b as nat).0,
            store.nodes() == split_children(st, s, depth as nat, b as nat).1.nodes,
        decreases 256 - b,
    {
        let ghost mid = split_children(st, s, depth as nat, b as nat).1;
        let part = pick_bucket(entries, depth, b as u8);
        if part.len() > 0 {
            let ghost leaf = CellNodeView::Leaf(metas_view(part@));
            let h = match put_cell(store, CellNode::Leaf(part), Ghost(mid.clean)) {
                Ok(h) => h,
                Err(e) => {
                    assert(refused::<S>(
                        split_children(st, s, depth as nat, b as nat).1,
                        CellNodeView::Leaf(bucket(s, depth as nat, b as nat as u8)),
                        e,
                        store.nodes(),
                    ));
                    return Err(e);
                },
            };
            let ghost before = children_view(children@);
            children.push((b as u8, *h.as_bytes()));
            assert(children_view(children@) =~= before.push((b as u8, cell_digest(leaf))));
        }
        b += 1;
    }
    let ghost mid = split_children(st, s, depth as nat, 256).1;
    put_cell(store, CellNode::Branch(children), Ghost(mid.clean))
}

fn place_child(out: &mut Vec<(u8, [u8; 32])>, c: (u8, [u8; 32]))
    ensures
        children_view(final(out)@) == child_placed(children_view(old(out)@), (c.0, c.1@)),
{
    let ghost s = children_view(out@);
    let ghost e = (c.0, c.1@);
    let n: usize = out.len();
    let mut i: usize = n;
    proof {
        assert(s.take(n as int) =~= s);
        assert(child_placed(s, e) + s.skip(n as int) =~= child_placed(s, e));
    }
    while i > 0 && c.0 < out[i - 1].0
        invariant
            i <= n,
            n == out@.len(),
            *out == *old(out),
            s == children_view(out@),
            e == (c.0, c.1@),
            child_placed(s, e) == child_placed(s.take(i as int), e) + s.skip(i as int),
        decreases i,
    {
        assert(s.take(i as int).last() == s[i - 1]);
        assert(s[i - 1].0 == out@[i - 1].0);
        assert(s.take(i as int).drop_last() =~= s.take(i - 1));
        assert(child_placed(s.take(i - 1), e).push(s[i - 1]) + s.skip(i as int) =~= child_placed(
            s.take(i - 1),
            e,
        ) + s.skip(i - 1));
        i -= 1;
    }
    proof {
        if i > 0 {
            assert(s.take(i as int).last() == s[i - 1]);
            assert(s[i - 1].0 == out@[i - 1].0);
        }
        assert(child_placed(s.take(i as int), e) =~= s.take(i as int).push(e));
    }
    out.insert(i, c);
    assert(children_view(out@) =~= s.take(i as int).push(e) + s.skip(i as int));
}

fn sort_children(children: &Vec<(u8, [u8; 32])>) -> (r: Vec<(u8, [u8; 32])>)
    ensures
        children_view(r@) == by_byte(children_view(children@)),
{
    let ghost all = children_view(children@);
    let mut out: Vec<(u8, [u8; 32])> = Vec::new();
    let mut i: usize = 0;
    assert(all.take(0) =~= Seq::empty());
    assert(children_view(out@) =~= by_byte(all.take(0)));
    while i < children.len()
        invariant
            i <= children@.len(),
            all == children_view(children@),
            children_view(out@) == by_byte(all.take(i as int)),
        decreases children@.len() - i,
    {
        proof {
            assert(all.take(i + 1).drop_last() =~= all.take(i as int));
            assert(all.take(i + 1).last() == all[i as int]);
        }
        place_child(&mut out, children[i]);
        i += 1;
    }
    assert(all.take(i as int) =~= all);
    out
}

fn insert_at<S: Store<CellNode>>(
    store: &mut S,
    node_hash: ContentHash,
    meta: CellMeta,
    depth: u64,
    Ghost(clean): Ghost<bool>,
) -> (r: StoreResult<ContentHash>)
    ensures
        final(store).blobs() == old(store).blobs(),
        ({
            let st = CellSt { nodes: old(store).nodes(), clean };
            match r {
                Ok(h) => {
                    let done = inserted(st, node_hash@, meta@, depth as nat);
                    done is Some && done->Some_0.0 == h@ && done->Some_0.1.nodes == final(store).nodes()
                },
                Err(e) => insert_fails(
                    *old(store),
                    st,
                    node_hash@,
                    meta@,
                    depth as nat,
                    e,
                    final(store).nodes(),
                ),
            }
        }),
    decreases u64::MAX - depth,
{
    let ghost st = CellSt { nodes: store.nodes(), clean };
    let ghost mv = meta@;
    match store.get_node(node_hash) {
        Err(e) => Err(e),
        Ok(CellNode::Leaf(found)) => {
            let mut entries = found;
            let ghost m = metas_view(entries@);
            let i: usize = position_of(&entries, &meta.key_hash);
            if i < entries.len() {
                entries.set(i, meta);
                assert(metas_view(entries@) =~= m.update(i as int, mv));
                return put_cell(store, CellNode::Leaf(entries), Ghost(clean));
            }
            entries.push(meta);
            assert(metas_view(entries@) =~= m.push(mv));
            if entries.len() > LEAF_MAX && depth < 32 {
                split(store, &entries, depth, Ghost(clean))
            } else {
                put_cell(store, CellNode::Leaf(entries), Ghost(clean))
            }
        },
        Ok(CellNode::Branch(found)) => {
            let mut children = found;
            let ghost c = children_view(children@);
            let byte: u8 = key_byte(&meta.key_hash, depth);
            let i: usize = child_position(&children, byte);
            proof {
                lemma_child_index(c, byte);
            }
            if i < children.len() {
                if depth == 0xFFFF_FFFF_FFFF_FFFF {
                    return Err(too_deep());
                }
                let child = ContentHash::from_array(children[i].1);
                assert(child@ == c[i as int].1);
                let new_child = match insert_at(store, child, meta, depth + 1, Ghost(clean)) {
                    Ok(h) => h,
                    Err(e) => {
                        return Err(e);
                    },
                };
                let ghost mid = inserted(st, c[i as int].1, mv, depth as nat + 1)->Some_0.1;
                let b: u8 = children[i].0;
                children.set(i, (b, *new_child.as_bytes()));
                assert(children_view(children@) =~= c.update(
                    i as int,
                    (c[i as int].0, new_child@),
                ));
                put_cell(store, CellNode::Branch(children), Ghost(mid.clean))
            } else {
                let mut one: Vec<CellMeta> = Vec::new();
                one.push(meta);
                assert(metas_view(one@) =~= seq![mv]);
                let ghost leaf = CellNodeView::Leaf(seq![mv]);
                let h = match put_cell(store, CellNode::Leaf(one), Ghost(clean)) {
                    Ok(h) => h,
                    Err(e) => {
                        return Err(e);
                    },
                };
                children.push((byte, *h.as_bytes()));
                assert(children_view(children@) =~= c.push((byte, cell_digest(leaf))));
                let sorted = sort_children(&children);
                put_cell(store, CellNode::Branch(sorted), Ghost(cell_put(st, leaf).clean))
            }
        },
    }
}

fn keep_others(entries: &Vec<CellMeta>, key: &[u8; 32]) -> (r: Vec<CellMeta>)
    ensures
        metas_view(r@) == metas_view(entries@).filter(|x: MetaView| x.key_hash != key@),
{
    let ghost all = metas_view(entries@);
    let ghost keep = |x: MetaView| x.key_hash != key@;
    let mut out: Vec<CellMeta> = Vec::new();
    let mut i: usize = 0;
    proof {
        assert(all.take(0) =~= Seq::empty());
        reveal(Seq::filter);
        assert(metas_view(out@) =~= all.take(0).filter(keep));
    }
    while i < entries.len()
        invariant
            i <= entries@.len(),
            all == metas_view(entries@),
            keep == (|x: MetaView| x.key_hash != key@),
            metas_view(out@) == all.take(i as int).filter(keep),
        decreases entries@.len() - i,
    {
        let ghost sofar = metas_view(out@);
        proof {
            reveal(Seq::filter);
            assert(all.take(i + 1).drop_last() =~= all.take(i as int));
            assert(all.take(i + 1).last() == all[i as int]);
        }
        if !bytes_eq(&entries[i].key_hash, key) {
            out.push(entries[i].copied());
            assert(metas_view(out@) =~= sofar.push(all[i as int]));
        }
        i += 1;
    }
    assert(all.take(i as int) =~= all);
    out
}

fn delete_at<S: Store<CellNode>>(
    store: &mut S,
    node_hash: ContentHash,
    key_hash: &[u8; 32],
    depth: usize,
    Ghost(clean): Ghost<bool>,
) -> (r: StoreResult<(Option<ContentHash>, bool)>)
    requires
        depth <= 32,
    ensures
        final(store).blobs() == old(store).blobs(),
        ({
            let st = CellSt { nodes: old(store).nodes(), clean };
            match r {
                Ok((h, gone)) => {
                    let done = deleted(st, node_hash@, key_hash@, depth as nat);
                    &&& done is Some
                    &&& match (h, done->Some_0.0) {
                        (Some(a), Some(b)) => a@ == b,
                        (None, None) => true,
                        _ => false,
                    }
                    &&& gone == done->Some_0.1
                    &&& final(store).nodes() == done->Some_0.2.nodes
                },
                Err(e) => delete_fails(
                    *old(store),
                    st,
                    node_hash@,
                    key_hash@,
                    depth as nat,
                    e,
                    final(store).nodes(),
                ),
            }
        }),
    decreases 33 - depth,
{
    let ghost st = CellSt { nodes: store.nodes(), clean };
    match store.get_node(node_hash) {
        Err(e) => Err(e),
        Ok(CellNode::Leaf(entries)) => {
            let before: usize = entries.len();
            let rest = keep_others(&entries, key_hash);
            let after: usize = rest.len();
            assert(metas_view(entries@).len() == before);
            assert(metas_view(rest@).len() == after);
            if after == 0 {
                Ok((None, before != 0))
            } else {
                match put_cell(store, CellNode::Leaf(rest), Ghost(clean)) {
                    Ok(h) => Ok((Some(h), before != after)),
                    Err(e) => Err(e),
                }
            }
        },
        Ok(CellNode::Branch(found)) => {
            let mut children = found;
            let ghost c = children_view(children@);
            if depth >= 32 {
                return Ok((Some(node_hash), false));
            }
            let i: usize = child_position(&children, key_hash[depth]);
            proof {
                lemma_child_index(c, key_hash@[depth as int]);
            }
            if i >= children.len() {
                return Ok((Some(node_hash), false));
            }
            let child = ContentHash::from_array(children[i].1);
            assert(child@ == c[i as int].1);
            let (new_child, removed) = match delete_at(
                store,
                child,
                key_hash,
                depth + 1,
                Ghost(clean),
            ) {
                Ok(x) => x,
                Err(e) => {
                    return Err(e);
                },
            };
            let ghost mid = deleted(st, c[i as int].1, key_hash@, depth as nat + 1)->Some_0.2;
            if !removed {
                return Ok((Some(node_hash), false));
            }
            match new_child {
                Some(h) => {
                    let b: u8 = children[i].0;
                    children.set(i, (b, *h.as_bytes()));
                    assert(children_view(children@) =~= c.update(i as int, (c[i as int].0, h@)));
                },
                None => {
                    children.remove(i);
                    assert(children_view(children@) =~= c.remove(i as int));
                },
            }
            assert(children_view(children@).len() == children@.len());
            if children.len() == 0 {
                Ok((None, true))
            } else {
                match put_cell(store, CellNode::Branch(children), Ghost(mid.clean)) {
                    Ok(h) => Ok((Some(h), true)),
                    Err(e) => Err(e),
                }
            }
        },
    }
}

} // verus!
