//! Leaf nodes: key and row cells in ascending key order, and the link to the next leaf.

use crate::node::common::{CommonNode, Header, NodeType};
use crate::serialization::{row_decode, ROW_SIZE};
use vstd::prelude::*;

verus! {

// Leaf page layout: | common header | num cells | next leaf | cells ... |
pub const LEAF_NODE_NUM_CELLS_OFFSET: usize = 8;
pub const LEAF_NODE_NEXT_LEAF_OFFSET: usize = 12;
pub const LEAF_NODE_HEADER_SIZE: usize = 16;
pub const LEAF_NODE_KEY_SIZE: usize = 4;
/// Bytes of one cell: the key, then the encoded row.
pub const LEAF_NODE_CELL_SIZE: usize = 303;
pub const LEAF_NODE_SPACE_FOR_CELLS: usize = 4080;
/// Most cells a leaf holds.
pub const LEAF_NODE_MAX_CELLS: usize = 13;
/// Cells that go to the new right leaf on a split.
pub const LEAF_NODE_RIGHT_SPLIT_COUNT: usize = 7;
/// Cells that stay in the old left leaf on a split.
pub const LEAF_NODE_LEFT_SPLIT_COUNT: usize = 7;

/// One key with its encoded row.
#[derive(Debug)]
pub struct LeafCell {
    pub key: u32,
    pub value: Vec<u8>,
}

/// A leaf: sorted cells and the page number of the next leaf (0 for none).
#[derive(Debug)]
pub struct LeafNode {
    pub node: CommonNode,
    pub next_leaf: u32,
    pub cells: Vec<LeafCell>,
}

/// The keys of a cell sequence, in order.
pub open spec fn cell_keys(cells: Seq<LeafCell>) -> Seq<u32> {
    cells.map_values(|c: LeafCell| c.key)
}

/// The cells as (key, row bytes) pairs.
pub open spec fn cell_pairs(cells: Seq<LeafCell>) -> Seq<(u32, Seq<u8>)> {
    cells.map_values(|c: LeafCell| (c.key, c.value@))
}

/// The cell's value is the encoding of a row whose id is the cell's key.
pub open spec fn valid_value(c: LeafCell) -> bool {
    &&& c.value@.len() == ROW_SIZE
    &&& row_decode(c.value@) matches Some(r) && r.0 == c.key
}

/// Strictly ascending.
pub open spec fn ascending(s: Seq<u32>) -> bool {
    forall|i: int, j: int| 0 <= i < j < s.len() ==> s[i] < s[j]
}

impl LeafNode {
    pub open spec fn keys(&self) -> Seq<u32> {
        cell_keys(self.cells@)
    }

    pub open spec fn pairs(&self) -> Seq<(u32, Seq<u8>)> {
        cell_pairs(self.cells@)
    }

    /// Tagged as a leaf, within capacity, keys strictly ascending, every value an encoded row.
    pub open spec fn wf(&self) -> bool {
        &&& self.node.header.node_type == NodeType::Leaf
        &&& self.cells@.len() <= LEAF_NODE_MAX_CELLS
        &&& ascending(self.keys())
        &&& forall|i: int| 0 <= i < self.cells@.len() ==> valid_value(#[trigger] self.cells@[i])
    }

    /// Turns a node into an empty leaf that is not the root and has no next leaf.
    pub fn new(node: CommonNode) -> (r: LeafNode)
        ensures
            r.node.header == (Header { node_type: NodeType::Leaf, is_root: false, ..node.header }),
            r.next_leaf == 0,
            r.cells@.len() == 0,
            r.wf(),
    {
        let mut node = node;
        node.set_node_type(NodeType::Leaf);
        node.set_root(false);
        LeafNode { node, next_leaf: 0, cells: Vec::new() }
    }

    pub fn num_cells(&self) -> (r: u32)
        requires
            self.wf(),
        ensures
            r == self.cells@.len(),
    {
        self.cells.len() as u32
    }

    pub fn key(&self, cell_num: u32) -> (r: u32)
        requires
            cell_num < self.cells@.len(),
        ensures
            r == self.cells@[cell_num as int].key,
    {
        self.cells[cell_num as usize].key
    }

    pub fn value(&self, cell_num: u32) -> (r: &[u8])
        requires
            cell_num < self.cells@.len(),
        ensures
            r@ == self.cells@[cell_num as int].value@,
    {
        self.cells[cell_num as usize].value.as_slice()
    }

    pub fn next_leaf(&self) -> (r: u32)
        ensures
            r == self.next_leaf,
    {
        self.next_leaf
    }

    pub fn set_next_leaf(&mut self, next_leaf: u32)
        ensures
            final(self).next_leaf == next_leaf,
            final(self).node == old(self).node,
            final(self).cells == old(self).cells,
    {
        self.next_leaf = next_leaf;
    }

    /// The largest key: the last cell's.
    pub fn get_max_key(&self) -> (r: u32)
        requires
            self.cells@.len() > 0,
        ensures
            r == self.cells@.last().key,
    {
        self.cells[self.cells.len() - 1].key
    }

    /// The smallest cell index whose key is at least `key`, or the cell count if there is none:
    /// where `key` is, or where it would be inserted.
    pub fn find(&self, key: u32) -> (r: u32)
        requires
            self.wf(),
        ensures
            r <= self.cells@.len(),
            forall|i: int| 0 <= i < r ==> self.cells@[i].key < key,
            forall|i: int| r <= i < self.cells@.len() ==> key <= self.cells@[i].key,
    {
        let num_cells = self.cells.len();
        let mut min_index: usize = 0;
        let mut one_past_max_index: usize = num_cells;
        while one_past_max_index != min_index
            invariant
                self.wf(),
                num_cells == self.cells@.len(),
                0 <= min_index <= one_past_max_index <= num_cells,
                forall|i: int| 0 <= i < min_index ==> self.cells@[i].key < key,
                forall|i: int| one_past_max_index <= i < num_cells ==> key <= self.cells@[i].key,
            decreases one_past_max_index - min_index,
        {
            let index = min_index + (one_past_max_index - min_index) / 2;
            let key_at_index = self.cells[index].key;
            assert(self.keys()[index as int] == key_at_index);
            if key == key_at_index {
                assert forall|i: int| 0 <= i < index implies self.cells@[i].key < key by {
                    assert(self.keys()[i] == self.cells@[i].key);
                }
                assert forall|i: int| index <= i < num_cells implies key <= self.cells@[i].key by {
                    assert(self.keys()[i] == self.cells@[i].key);
                }
                return index as u32;
            } else if key < key_at_index {
                assert forall|i: int| index <= i < num_cells implies key <= self.cells@[i].key by {
                    assert(self.keys()[i] == self.cells@[i].key);
                }
                one_past_max_index = index;
            } else {
                assert forall|i: int| 0 <= i <= index implies self.cells@[i].key < key by {
                    assert(self.keys()[i] == self.cells@[i].key);
                }
                min_index = index + 1;
            }
        }
        min_index as u32
    }

    /// Puts a cell at `cell_num`, moving the cells from there one place right.
    pub fn insert_cell(&mut self, cell_num: u32, key: u32, value: Vec<u8>)
        requires
            old(self).wf(),
            old(self).cells@.len() < LEAF_NODE_MAX_CELLS,
            cell_num <= old(self).cells@.len(),
            value@.len() == ROW_SIZE,
            row_decode(value@) matches Some(r) && r.0 == key,
            forall|i: int| 0 <= i < cell_num ==> old(self).cells@[i].key < key,
            forall|i: int| cell_num <= i < old(self).cells@.len() ==> key < old(self).cells@[i].key,
        ensures
            final(self).wf(),
            final(self).node == old(self).node,
            final(self).next_leaf == old(self).next_leaf,
            final(self).pairs() == old(self).pairs().insert(cell_num as int, (key, value@)),
    {
        let ghost value_view = value@;
        self.cells.insert(cell_num as usize, LeafCell { key, value });
        proof {
            let new_keys = self.keys();
            assert forall|i: int, j: int| 0 <= i < j < new_keys.len() implies new_keys[i] < new_keys[j] by {
                let ok = old(self).keys();
                if j < cell_num {
                    assert(new_keys[i] == ok[i] && new_keys[j] == ok[j]);
                } else if j == cell_num {
                    assert(new_keys[i] == ok[i]);
                } else if i < cell_num {
                    assert(new_keys[i] == ok[i] && new_keys[j] == ok[j - 1]);
                } else if i == cell_num {
                    assert(new_keys[j] == ok[j - 1]);
                } else {
                    assert(new_keys[i] == ok[i - 1] && new_keys[j] == ok[j - 1]);
                }
            }
            assert forall|i: int| 0 <= i < self.cells@.len() implies valid_value(#[trigger] self.cells@[i]) by {
                if i < cell_num {
                    assert(self.cells@[i] == old(self).cells@[i]);
                } else if i > cell_num {
                    assert(self.cells@[i] == old(self).cells@[i - 1]);
                }
            }
            assert(self.pairs() =~= old(self).pairs().insert(cell_num as int, (key, value_view)));
        }
    }
}

} // verus!

verus! {

/// `r` is where `k` falls in `s`: every element before it is below `k`, none from it on is.
pub open spec fn is_rank(s: Seq<u32>, k: u32, r: int) -> bool {
    &&& 0 <= r <= s.len()
    &&& forall|i: int| 0 <= i < r ==> s[i] < k
    &&& forall|i: int| r <= i < s.len() ==> k <= s[i]
}

/// The position at which `k` falls in `s`.
pub open spec fn rank(s: Seq<u32>, k: u32) -> int {
    choose|r: int| is_rank(s, k, r)
}

pub proof fn lemma_rank_unique(s: Seq<u32>, k: u32, r: int)
    requires
        is_rank(s, k, r),
    ensures
        rank(s, k) == r,
{
    let q = rank(s, k);
    assert(is_rank(s, k, q));
    if q < r {
        assert(s[q] < k);
    } else if r < q {
        assert(s[r] < k);
    }
}

} // verus!
