//! Nodes: the typed contents of a page, and their encoding in page bytes.

pub mod common;
pub mod internal;
pub mod leaf;

use crate::layout::{
    le_bytes, le_value, lemma_le_round_trip, push_bytes, push_u32, push_zeros, read_u32, zeros,
    PAGE_SIZE,
};
use crate::node::common::{CommonNode, Header, NodeType, IS_ROOT_OFFSET, NODE_TYPE_OFFSET, PARENT_OFFSET};
use crate::node::internal::{InternalCell, InternalNode, INTERNAL_NODE_MAX_CELLS};
use crate::node::leaf::{
    ascending, cell_keys, valid_value, LeafCell, LeafNode, LEAF_NODE_MAX_CELLS,
    LEAF_NODE_NEXT_LEAF_OFFSET, LEAF_NODE_NUM_CELLS_OFFSET,
};
use crate::serialization::{deserialize_row, ROW_SIZE};
use crate::layout::copy_range;
use vstd::prelude::*;

verus! {

/// A page read as the node it holds.
#[derive(Debug)]
pub enum Node {
    Internal(InternalNode),
    Leaf(LeafNode),
}

impl Node {
    /// A node whose own data is consistent.
    pub open spec fn wf(&self) -> bool {
        match self {
            Node::Internal(n) => n.wf(),
            Node::Leaf(n) => n.wf(),
        }
    }

    /// The largest key in the node.
    pub open spec fn max_key(&self) -> u32 {
        match self {
            Node::Internal(n) => n.keys().last(),
            Node::Leaf(n) => n.keys().last(),
        }
    }

    pub open spec fn is_root_spec(&self) -> bool {
        match self {
            Node::Internal(n) => n.node.header.is_root,
            Node::Leaf(n) => n.node.header.is_root,
        }
    }

    /// Gets the max key in the node.
    pub fn get_max_key(&self) -> (r: u32)
        requires
            match self {
                Node::Internal(n) => n.cells@.len() > 0,
                Node::Leaf(n) => n.cells@.len() > 0,
            },
        ensures
            r == self.max_key(),
    {
        match self {
            Node::Internal(node) => node.get_max_key(),
            Node::Leaf(node) => node.get_max_key(),
        }
    }

    pub fn unwrap_internal(self) -> (r: InternalNode)
        requires
            self is Internal,
        ensures
            self == Node::Internal(r),
    {
        match self {
            Node::Internal(node) => node,
            Node::Leaf(_) => unreached(),
        }
    }

    pub fn unwrap_leaf(self) -> (r: LeafNode)
        requires
            self is Leaf,
        ensures
            self == Node::Leaf(r),
    {
        match self {
            Node::Internal(_) => unreached(),
            Node::Leaf(node) => node,
        }
    }

    pub fn set_root(&mut self, is_root: bool)
        ensures
            match (*old(self), *final(self)) {
                (Node::Internal(a), Node::Internal(b)) => b.node.header == (
                common::Header { is_root, ..a.node.header }) && b.right_child == a.right_child
                    && b.cells == a.cells,
                (Node::Leaf(a), Node::Leaf(b)) => b.node.header == (common::Header {
                    is_root,
                    ..a.node.header
                }) && b.next_leaf == a.next_leaf && b.cells == a.cells,
                _ => false,
            },
    {
        match self {
            Node::Internal(node) => node.node.set_root(is_root),
            Node::Leaf(node) => node.node.set_root(is_root),
        }
    }

    pub fn set_parent(&mut self, parent: u32)
        ensures
            match (*old(self), *final(self)) {
                (Node::Internal(a), Node::Internal(b)) => b.node.header == (
                common::Header { parent, ..a.node.header }) && b.right_child == a.right_child
                    && b.cells == a.cells,
                (Node::Leaf(a), Node::Leaf(b)) => b.node.header == (common::Header {
                    parent,
                    ..a.node.header
                }) && b.next_leaf == a.next_leaf && b.cells == a.cells,
                _ => false,
            },
    {
        match self {
            Node::Internal(node) => node.node.set_parent(parent),
            Node::Leaf(node) => node.node.set_parent(parent),
        }
    }
}

} // verus!

verus! {

pub open spec fn type_byte(t: NodeType) -> u8 {
    match t {
        NodeType::Internal => 0,
        NodeType::Leaf => 1,
    }
}

pub open spec fn bool_byte(b: bool) -> u8 {
    if b {
        1
    } else {
        0
    }
}

/// The common header in bytes: kind, root flag, parent, two bytes of padding.
pub open spec fn header_bytes(h: Header) -> Seq<u8> {
    seq![type_byte(h.node_type), bool_byte(h.is_root)] + le_bytes(h.parent) + zeros(2)
}

pub open spec fn leaf_cell_bytes(c: LeafCell) -> Seq<u8> {
    le_bytes(c.key) + c.value@
}

pub open spec fn internal_cell_bytes(c: InternalCell) -> Seq<u8> {
    le_bytes(c.child) + le_bytes(c.key)
}

/// A page's bytes before the zero padding.
pub open spec fn page_body(n: Node) -> Seq<u8> {
    match n {
        Node::Leaf(l) => header_bytes(l.node.header) + le_bytes(l.cells@.len() as u32) + le_bytes(
            l.next_leaf,
        ) + l.cells@.map_values(|c: LeafCell| leaf_cell_bytes(c)).flatten(),
        Node::Internal(r) => header_bytes(r.node.header) + le_bytes(r.cells@.len() as u32)
            + le_bytes(r.right_child) + r.cells@.map_values(|c: InternalCell| internal_cell_bytes(c)).flatten(),
    }
}

/// The page that holds `n`: its fields in order, then zeros up to the page size.
pub open spec fn page_bytes(n: Node) -> Seq<u8> {
    page_body(n) + zeros((PAGE_SIZE - page_body(n).len()) as nat)
}

/// The header that the first bytes of `b` hold.
pub open spec fn header_at(b: Seq<u8>) -> Header {
    Header {
        node_type: if b[0] == 0 {
            NodeType::Internal
        } else {
            NodeType::Leaf
        },
        is_root: b[1] == 1,
        parent: le_value(b.subrange(2, 6)),
    }
}

/// The `u32` at byte offset `off` of `b`.
pub open spec fn u32_at(b: Seq<u8>, off: int) -> u32 {
    le_value(b.subrange(off, off + 4))
}

/// `n` is what the page `b` holds.
pub open spec fn decoded_as(b: Seq<u8>, n: Node) -> bool {
    &&& b.len() == PAGE_SIZE
    &&& b[1] <= 1
    &&& match n {
        Node::Leaf(l) => {
            &&& b[0] == 1
            &&& l.node.header == header_at(b)
            &&& l.cells@.len() == u32_at(b, 8)
            &&& l.next_leaf == u32_at(b, 12)
            &&& forall|i: int|
                0 <= i < l.cells@.len() ==> {
                    &&& (#[trigger] l.cells@[i]).key == u32_at(b, 16 + 303 * i)
                    &&& l.cells@[i].value@ == b.subrange(16 + 303 * i + 4, 16 + 303 * i + 303)
                }
        },
        Node::Internal(r) => {
            &&& b[0] == 0
            &&& r.node.header == header_at(b)
            &&& r.cells@.len() == u32_at(b, 8)
            &&& r.right_child == u32_at(b, 12)
            &&& forall|i: int|
                0 <= i < r.cells@.len() ==> {
                    &&& (#[trigger] r.cells@[i]).child == u32_at(b, 16 + 8 * i)
                    &&& r.cells@[i].key == u32_at(b, 16 + 8 * i + 4)
                }
        },
    }
}

/// Indexing into the concatenation of pieces of one width.
pub proof fn lemma_flatten_chunks(s: Seq<Seq<u8>>, w: int, i: int, d: int)
    requires
        w > 0,
        forall|k: int| 0 <= k < s.len() ==> (#[trigger] s[k]).len() == w,
        0 <= i < s.len(),
        0 <= d < w,
    ensures
        s.flatten().len() == s.len() * w,
        s.flatten()[i * w + d] == s[i][d],
    decreases s.len(),
{
    let rest = s.drop_first();
    assert forall|k: int| 0 <= k < rest.len() implies (#[trigger] rest[k]).len() == w by {
        assert(rest[k] == s[k + 1]);
    }
    lemma_flatten_len(rest, w);
    assert(s.len() * w == w + rest.len() * w) by (nonlinear_arith)
        requires
            rest.len() == s.len() - 1,
    ;
    assert(s.flatten() == s[0] + rest.flatten());
    if i > 0 {
        lemma_flatten_chunks(rest, w, i - 1, d);
        assert(i * w + d - w == (i - 1) * w + d) by (nonlinear_arith);
        assert(i * w + d >= w) by (nonlinear_arith)
            requires
                i > 0,
                d >= 0,
                w > 0,
        ;
        assert(rest[i - 1] == s[i]);
        let idx = i * w + d;
        assert(s[0].len() == w);
        assert((i - 1) * w + d < rest.len() * w) by (nonlinear_arith)
            requires
                0 <= i - 1 < rest.len(),
                0 <= d < w,
        ;
        assert(s.flatten()[idx] == rest.flatten()[idx - w]);
        assert(rest.flatten()[(i - 1) * w + d] == rest[i - 1][d]);
    } else {
        assert(i * w + d == d) by (nonlinear_arith)
            requires
                i == 0,
        ;
    }
}

pub proof fn lemma_flatten_len(s: Seq<Seq<u8>>, w: int)
    requires
        forall|k: int| 0 <= k < s.len() ==> (#[trigger] s[k]).len() == w,
    ensures
        s.flatten().len() == s.len() * w,
    decreases s.len(),
{
    if s.len() > 0 {
        let rest = s.drop_first();
        assert forall|k: int| 0 <= k < rest.len() implies (#[trigger] rest[k]).len() == w by {
            assert(rest[k] == s[k + 1]);
        }
        lemma_flatten_len(rest, w);
        assert(s.len() * w == w + rest.len() * w) by (nonlinear_arith)
            requires
                rest.len() == s.len() - 1,
        ;
    }
}

} // verus!

verus! {

/// The page that holds a well-formed node is a page of `PAGE_SIZE` bytes that decodes to it.
pub proof fn lemma_page_round_trip(n: Node)
    requires
        n.wf(),
    ensures
        page_bytes(n).len() == PAGE_SIZE,
        decoded_as(page_bytes(n), n),
{
    let b = page_bytes(n);
    let body = page_body(n);
    match n {
        Node::Leaf(l) => {
            let chunks = l.cells@.map_values(|c: LeafCell| leaf_cell_bytes(c));
            assert forall|k: int| 0 <= k < chunks.len() implies (#[trigger] chunks[k]).len() == 303 by {
                assert(valid_value(l.cells@[k]));
            }
            lemma_flatten_len(chunks, 303);
            let len = l.cells@.len() as int;
            assert(len * 303 <= 13 * 303) by (nonlinear_arith)
                requires
                    len <= 13,
            ;
            lemma_le_round_trip(l.node.header.parent);
            lemma_le_round_trip(len as u32);
            lemma_le_round_trip(l.next_leaf);
            assert(b.subrange(2, 6) =~= le_bytes(l.node.header.parent));
            assert(b.subrange(8, 12) =~= le_bytes(len as u32));
            assert(b.subrange(12, 16) =~= le_bytes(l.next_leaf));
            assert forall|i: int| 0 <= i < len implies {
                &&& (#[trigger] l.cells@[i]).key == u32_at(b, 16 + 303 * i)
                &&& l.cells@[i].value@ == b.subrange(16 + 303 * i + 4, 16 + 303 * i + 303)
            } by {
                let c = l.cells@[i];
                assert(chunks[i] == leaf_cell_bytes(c));
                assert(valid_value(c));
                assert(303 * i + 303 <= len * 303) by (nonlinear_arith)
                    requires
                        i < len,
                ;
                assert forall|d: int| 0 <= d < 303 implies b[16 + 303 * i + d] == #[trigger] chunks[i][d] by {
                    lemma_flatten_chunks(chunks, 303, i, d);
                    assert(i * 303 == 303 * i) by (nonlinear_arith);
                }
                assert(b.subrange(16 + 303 * i, 16 + 303 * i + 4) =~= le_bytes(c.key)) by {
                    assert forall|d: int| 0 <= d < 4 implies b.subrange(16 + 303 * i, 16 + 303 * i + 4)[d] == le_bytes(c.key)[d] by {
                        assert(chunks[i][d] == le_bytes(c.key)[d]);
                    }
                }
                lemma_le_round_trip(c.key);
                assert(b.subrange(16 + 303 * i + 4, 16 + 303 * i + 303) =~= c.value@) by {
                    assert forall|d: int| 0 <= d < 299 implies b.subrange(16 + 303 * i + 4, 16 + 303 * i + 303)[d] == c.value@[d] by {
                        assert(chunks[i][d + 4] == c.value@[d]);
                    }
                }
            }
        },
        Node::Internal(r) => {
            let chunks = r.cells@.map_values(|c: InternalCell| internal_cell_bytes(c));
            assert forall|k: int| 0 <= k < chunks.len() implies (#[trigger] chunks[k]).len() == 8 by {}
            lemma_flatten_len(chunks, 8);
            let len = r.cells@.len() as int;
            lemma_le_round_trip(r.node.header.parent);
            lemma_le_round_trip(len as u32);
            lemma_le_round_trip(r.right_child);
            assert(b.subrange(2, 6) =~= le_bytes(r.node.header.parent));
            assert(b.subrange(8, 12) =~= le_bytes(len as u32));
            assert(b.subrange(12, 16) =~= le_bytes(r.right_child));
            assert forall|i: int| 0 <= i < len implies {
                &&& (#[trigger] r.cells@[i]).child == u32_at(b, 16 + 8 * i)
                &&& r.cells@[i].key == u32_at(b, 16 + 8 * i + 4)
            } by {
                let c = r.cells@[i];
                assert(chunks[i] == internal_cell_bytes(c));
                assert(8 * i + 8 <= len * 8) by (nonlinear_arith)
                    requires
                        i < len,
                ;
                assert forall|d: int| 0 <= d < 8 implies b[16 + 8 * i + d] == #[trigger] chunks[i][d] by {
                    lemma_flatten_chunks(chunks, 8, i, d);
                    assert(i * 8 == 8 * i) by (nonlinear_arith);
                }
                assert(b.subrange(16 + 8 * i, 16 + 8 * i + 4) =~= le_bytes(c.child)) by {
                    assert forall|d: int| 0 <= d < 4 implies b.subrange(16 + 8 * i, 16 + 8 * i + 4)[d] == le_bytes(c.child)[d] by {
                        assert(chunks[i][d] == le_bytes(c.child)[d]);
                    }
                }
                assert(b.subrange(16 + 8 * i + 4, 16 + 8 * i + 8) =~= le_bytes(c.key)) by {
                    assert forall|d: int| 0 <= d < 4 implies b.subrange(16 + 8 * i + 4, 16 + 8 * i + 8)[d] == le_bytes(c.key)[d] by {
                        assert(chunks[i][d + 4] == le_bytes(c.key)[d]);
                    }
                }
                lemma_le_round_trip(c.child);
                lemma_le_round_trip(c.key);
            }
        },
    }
}

} // verus!

verus! {

fn push_header(out: &mut Vec<u8>, h: &Header)
    ensures
        final(out)@ == old(out)@ + header_bytes(*h),
{
    let t: u8 = match h.node_type {
        NodeType::Internal => 0,
        NodeType::Leaf => 1,
    };
    out.push(t);
    out.push(if h.is_root { 1 } else { 0 });
    push_u32(out, h.parent);
    push_zeros(out, 2);
    assert(final(out)@ =~= old(out)@ + header_bytes(*h));
}

fn push_leaf_cells(out: &mut Vec<u8>, cells: &Vec<LeafCell>)
    ensures
        final(out)@ == old(out)@ + cells@.map_values(|c: LeafCell| leaf_cell_bytes(c)).flatten(),
{
    let mut i: usize = 0;
    assert(cells@.subrange(0, 0).map_values(|c: LeafCell| leaf_cell_bytes(c)) =~= Seq::<Seq<u8>>::empty());
    while i < cells.len()
        invariant
            0 <= i <= cells@.len(),
            out@ == old(out)@ + cells@.subrange(0, i as int).map_values(|c: LeafCell| leaf_cell_bytes(c)).flatten(),
        decreases cells@.len() - i,
    {
        let cell = &cells[i];
        let ghost before = cells@.subrange(0, i as int).map_values(|c: LeafCell| leaf_cell_bytes(c));
        push_u32(out, cell.key);
        push_bytes(out, cell.value.as_slice());
        proof {
            assert(cells@.subrange(0, i + 1).map_values(|c: LeafCell| leaf_cell_bytes(c)) =~= before.push(leaf_cell_bytes(*cell)));
            before.lemma_flatten_push(leaf_cell_bytes(*cell));
        }
        i = i + 1;
        assert(out@ =~= old(out)@ + cells@.subrange(0, i as int).map_values(|c: LeafCell| leaf_cell_bytes(c)).flatten());
    }
    assert(cells@.subrange(0, cells@.len() as int) =~= cells@);
}

fn push_internal_cells(out: &mut Vec<u8>, cells: &Vec<InternalCell>)
    ensures
        final(out)@ == old(out)@ + cells@.map_values(|c: InternalCell| internal_cell_bytes(c)).flatten(),
{
    let mut i: usize = 0;
    assert(cells@.subrange(0, 0).map_values(|c: InternalCell| internal_cell_bytes(c)) =~= Seq::<Seq<u8>>::empty());
    while i < cells.len()
        invariant
            0 <= i <= cells@.len(),
            out@ == old(out)@ + cells@.subrange(0, i as int).map_values(|c: InternalCell| internal_cell_bytes(c)).flatten(),
        decreases cells@.len() - i,
    {
        let cell = cells[i];
        let ghost before = cells@.subrange(0, i as int).map_values(|c: InternalCell| internal_cell_bytes(c));
        push_u32(out, cell.child);
        push_u32(out, cell.key);
        proof {
            assert(cells@.subrange(0, i + 1).map_values(|c: InternalCell| internal_cell_bytes(c)) =~= before.push(internal_cell_bytes(cell)));
            before.lemma_flatten_push(internal_cell_bytes(cell));
        }
        i = i + 1;
        assert(out@ =~= old(out)@ + cells@.subrange(0, i as int).map_values(|c: InternalCell| internal_cell_bytes(c)).flatten());
    }
    assert(cells@.subrange(0, cells@.len() as int) =~= cells@);
}

impl Node {
    /// The page that holds this node.
    pub fn buffer(&self) -> (r: Vec<u8>)
        requires
            self.wf(),
        ensures
            r@ == page_bytes(*self),
            r@.len() == PAGE_SIZE,
    {
        let mut out: Vec<u8> = Vec::new();
        match self {
            Node::Leaf(l) => {
                push_header(&mut out, &l.node.header);
                push_u32(&mut out, l.cells.len() as u32);
                push_u32(&mut out, l.next_leaf);
                push_leaf_cells(&mut out, &l.cells);
            },
            Node::Internal(r) => {
                push_header(&mut out, &r.node.header);
                push_u32(&mut out, r.cells.len() as u32);
                push_u32(&mut out, r.right_child);
                push_internal_cells(&mut out, &r.cells);
            },
        }
        proof {
            lemma_page_round_trip(*self);
            assert(out@ =~= page_body(*self));
        }
        let pad = PAGE_SIZE - out.len();
        push_zeros(&mut out, pad);
        out
    }
}

} // verus!

verus! {

/// Reads the cells of a leaf page; none where their keys do not ascend or a value is not a row.
fn read_leaf_cells(b: &[u8], count: usize) -> (r: Option<Vec<LeafCell>>)
    requires
        b@.len() == PAGE_SIZE,
        count <= LEAF_NODE_MAX_CELLS,
    ensures
        match r {
            Some(cells) => {
                &&& cells@.len() == count
                &&& ascending(cell_keys(cells@))
                &&& forall|i: int| 0 <= i < count ==> {
                    &&& valid_value(#[trigger] cells@[i])
                    &&& cells@[i].key == u32_at(b@, 16 + 303 * i)
                    &&& cells@[i].value@ == b@.subrange(16 + 303 * i + 4, 16 + 303 * i + 303)
                }
            },
            None => forall|l: LeafNode|
                #![trigger l.wf()]
                l.cells@.len() == count && (forall|i: int|
                    0 <= i < count ==> {
                        &&& (#[trigger] l.cells@[i]).key == u32_at(b@, 16 + 303 * i)
                        &&& l.cells@[i].value@ == b@.subrange(16 + 303 * i + 4, 16 + 303 * i + 303)
                    }) ==> !l.wf(),
        },
{
    let mut cells: Vec<LeafCell> = Vec::new();
    let mut i: usize = 0;
    while i < count
        invariant
            0 <= i <= count <= LEAF_NODE_MAX_CELLS,
            b@.len() == PAGE_SIZE,
            cells@.len() == i,
            ascending(cell_keys(cells@)),
            forall|k: int| 0 <= k < i ==> {
                &&& valid_value(#[trigger] cells@[k])
                &&& cells@[k].key == u32_at(b@, 16 + 303 * k)
                &&& cells@[k].value@ == b@.subrange(16 + 303 * k + 4, 16 + 303 * k + 303)
            },
        decreases count - i,
    {
        let off = 16 + 303 * i;
        let key = read_u32(b, off);
        let value = copy_range(b, off + 4, ROW_SIZE);
        if i > 0 && key <= cells[i - 1].key {
            proof {
                assert forall|l: LeafNode|
                    l.cells@.len() == count && (forall|j: int|
                        0 <= j < count ==> {
                            &&& (#[trigger] l.cells@[j]).key == u32_at(b@, 16 + 303 * j)
                            &&& l.cells@[j].value@ == b@.subrange(16 + 303 * j + 4, 16 + 303 * j + 303)
                        }) implies !l.wf() by {
                    assert(l.keys()[i as int] == l.cells@[i as int].key);
                    assert(l.keys()[i - 1] == l.cells@[i - 1].key);
                }
            }
            return None;
        }
        let decoded_id = match deserialize_row(value.as_slice()) {
            Some(row) => row.id,
            None => {
                proof {
                    assert forall|l: LeafNode|
                        l.cells@.len() == count && (forall|j: int|
                            0 <= j < count ==> {
                                &&& (#[trigger] l.cells@[j]).key == u32_at(b@, 16 + 303 * j)
                                &&& l.cells@[j].value@ == b@.subrange(16 + 303 * j + 4, 16 + 303 * j + 303)
                            }) implies !l.wf() by {
                        assert(l.cells@[i as int].value@ == value@);
                        if l.wf() {
                            assert(valid_value(l.cells@[i as int]));
                        }
                    }
                }
                return None;
            },
        };
        if decoded_id != key {
            proof {
                assert forall|l: LeafNode|
                    l.cells@.len() == count && (forall|j: int|
                        0 <= j < count ==> {
                            &&& (#[trigger] l.cells@[j]).key == u32_at(b@, 16 + 303 * j)
                            &&& l.cells@[j].value@ == b@.subrange(16 + 303 * j + 4, 16 + 303 * j + 303)
                        }) implies !l.wf() by {
                    assert(l.cells@[i as int].value@ == value@);
                    if l.wf() {
                        assert(valid_value(l.cells@[i as int]));
                    }
                }
            }
            return None;
        }
        let ghost old_cells = cells@;
        cells.push(LeafCell { key, value });
        proof {
            let ks = cell_keys(cells@);
            assert forall|a: int, c: int| 0 <= a < c < ks.len() implies ks[a] < ks[c] by {
                if c < i {
                    assert(ks[a] == cell_keys(old_cells)[a] && ks[c] == cell_keys(old_cells)[c]);
                } else {
                    assert(ks[c] == key);
                    assert(cell_keys(old_cells)[i - 1] == old_cells[i - 1].key);
                    if a < i - 1 {
                        assert(cell_keys(old_cells)[a] < cell_keys(old_cells)[i - 1]);
                    }
                    assert(ks[a] == cell_keys(old_cells)[a]);
                }
            }
            assert forall|k: int| 0 <= k < i + 1 implies {
                &&& valid_value(#[trigger] cells@[k])
                &&& cells@[k].key == u32_at(b@, 16 + 303 * k)
                &&& cells@[k].value@ == b@.subrange(16 + 303 * k + 4, 16 + 303 * k + 303)
            } by {
                if k < i {
                    assert(cells@[k] == old_cells[k]);
                }
            }
        }
        i = i + 1;
    }
    Some(cells)
}

/// Reads the cells of an internal page; none where their keys do not ascend.
fn read_internal_cells(b: &[u8], count: usize) -> (r: Option<Vec<InternalCell>>)
    requires
        b@.len() == PAGE_SIZE,
        count <= INTERNAL_NODE_MAX_CELLS,
    ensures
        match r {
            Some(cells) => {
                &&& cells@.len() == count
                &&& ascending(cells@.map_values(|c: InternalCell| c.key))
                &&& forall|i: int| 0 <= i < count ==> {
                    &&& (#[trigger] cells@[i]).child == u32_at(b@, 16 + 8 * i)
                    &&& cells@[i].key == u32_at(b@, 16 + 8 * i + 4)
                }
            },
            None => forall|n: InternalNode|
                #![trigger n.wf()]
                n.cells@.len() == count && (forall|i: int|
                    0 <= i < count ==> (#[trigger] n.cells@[i]).key == u32_at(b@, 16 + 8 * i + 4))
                    ==> !n.wf(),
        },
{
    let mut cells: Vec<InternalCell> = Vec::new();
    let mut i: usize = 0;
    while i < count
        invariant
            0 <= i <= count <= INTERNAL_NODE_MAX_CELLS,
            b@.len() == PAGE_SIZE,
            cells@.len() == i,
            ascending(cells@.map_values(|c: InternalCell| c.key)),
            forall|k: int| 0 <= k < i ==> {
                &&& (#[trigger] cells@[k]).child == u32_at(b@, 16 + 8 * k)
                &&& cells@[k].key == u32_at(b@, 16 + 8 * k + 4)
            },
        decreases count - i,
    {
        let off = 16 + 8 * i;
        let child = read_u32(b, off);
        let key = read_u32(b, off + 4);
        if i > 0 && key <= cells[i - 1].key {
            proof {
                assert forall|n: InternalNode|
                    n.cells@.len() == count && (forall|j: int|
                        0 <= j < count ==> (#[trigger] n.cells@[j]).key == u32_at(b@, 16 + 8 * j + 4))
                        implies !n.wf() by {
                    assert(n.keys()[i as int] == n.cells@[i as int].key);
                    assert(n.keys()[i - 1] == n.cells@[i - 1].key);
                }
            }
            return None;
        }
        let ghost old_cells = cells@;
        cells.push(InternalCell { child, key });
        proof {
            let ks = cells@.map_values(|c: InternalCell| c.key);
            let oks = old_cells.map_values(|c: InternalCell| c.key);
            assert forall|a: int, c: int| 0 <= a < c < ks.len() implies ks[a] < ks[c] by {
                if c < i {
                    assert(ks[a] == oks[a] && ks[c] == oks[c]);
                } else {
                    assert(ks[c] == key);
                    assert(oks[i - 1] == old_cells[i - 1].key);
                    if a < i - 1 {
                        assert(oks[a] < oks[i - 1]);
                    }
                    assert(ks[a] == oks[a]);
                }
            }
            assert forall|k: int| 0 <= k < i + 1 implies {
                &&& (#[trigger] cells@[k]).child == u32_at(b@, 16 + 8 * k)
                &&& cells@[k].key == u32_at(b@, 16 + 8 * k + 4)
            } by {
                if k < i {
                    assert(cells@[k] == old_cells[k]);
                }
            }
        }
        i = i + 1;
    }
    Some(cells)
}

impl Node {
    /// Reads the node a page holds; none where the page holds no well-formed node.
    pub fn from_buffer(b: &[u8]) -> (r: Option<Node>)
        requires
            b@.len() == PAGE_SIZE,
        ensures
            r matches Some(n) ==> decoded_as(b@, n) && n.wf(),
            r is None ==> forall|n: Node| !(#[trigger] decoded_as(b@, n) && n.wf()),
    {
        let node_type = b[NODE_TYPE_OFFSET];
        let root = b[IS_ROOT_OFFSET];
        if root > 1 || node_type > 1 {
            return None;
        }
        let header = Header {
            node_type: if node_type == 0 {
                NodeType::Internal
            } else {
                NodeType::Leaf
            },
            is_root: root == 1,
            parent: read_u32(b, PARENT_OFFSET),
        };
        assert(b@.subrange(2, 6) == b@.subrange(PARENT_OFFSET as int, PARENT_OFFSET + 4));
        let count = read_u32(b, LEAF_NODE_NUM_CELLS_OFFSET);
        let link = read_u32(b, LEAF_NODE_NEXT_LEAF_OFFSET);
        if node_type == 1 {
            if count as usize > LEAF_NODE_MAX_CELLS {
                return None;
            }
            match read_leaf_cells(b, count as usize) {
                Some(cells) => Some(Node::Leaf(LeafNode { node: CommonNode { header }, next_leaf: link, cells })),
                None => {
                    proof {
                        assert forall|n: Node| !(#[trigger] decoded_as(b@, n) && n.wf()) by {
                            if let Node::Leaf(l) = n {
                                if decoded_as(b@, n) {
                                    assert(l.cells@.len() == count);
                                }
                            }
                        }
                    }
                    None
                },
            }
        } else {
            if count as usize > INTERNAL_NODE_MAX_CELLS {
                return None;
            }
            match read_internal_cells(b, count as usize) {
                Some(cells) => Some(Node::Internal(InternalNode { node: CommonNode { header }, right_child: link, cells })),
                None => {
                    proof {
                        assert forall|n: Node| !(#[trigger] decoded_as(b@, n) && n.wf()) by {
                            if let Node::Internal(r) = n {
                                if decoded_as(b@, n) {
                                    assert(r.cells@.len() == count);
                                }
                            }
                        }
                    }
                    None
                },
            }
        }
    }
}

} // verus!
