//! Internal nodes: separator keys and child page numbers.

use crate::node::common::{CommonNode, Header, NodeType};
use crate::node::leaf::{ascending, is_rank, lemma_rank_unique, rank};
use vstd::prelude::*;

verus! {

// Internal page layout: | common header | num keys | right child | cells ... |
pub const INTERNAL_NODE_NUM_KEYS_OFFSET: usize = 8;
pub const INTERNAL_NODE_RIGHT_CHILD_OFFSET: usize = 12;
pub const INTERNAL_NODE_HEADER_SIZE: usize = 16;
/// Bytes of one cell: the child's page number, then its key.
pub const INTERNAL_NODE_CELL_SIZE: usize = 8;
/// Most keys an internal node holds; internal nodes are never split.
pub const INTERNAL_NODE_MAX_CELLS: usize = 3;

/// A child pointer with the largest key of that child's subtree.
#[derive(Debug, Clone, Copy, PartialEq, Eq, Structural)]
pub struct InternalCell {
    pub child: u32,
    pub key: u32,
}

/// An internal node: separator cells and the child right of the last separator.
#[derive(Debug)]
pub struct InternalNode {
    pub node: CommonNode,
    pub right_child: u32,
    pub cells: Vec<InternalCell>,
}

impl InternalNode {
    pub open spec fn keys(&self) -> Seq<u32> {
        self.cells@.map_values(|c: InternalCell| c.key)
    }

    /// The children from left to right: each cell's, then the right child.
    pub open spec fn children(&self) -> Seq<u32> {
        self.cells@.map_values(|c: InternalCell| c.child).push(self.right_child)
    }

    /// Tagged as internal, within capacity, separators strictly ascending.
    pub open spec fn wf(&self) -> bool {
        &&& self.node.header.node_type == NodeType::Internal
        &&& self.cells@.len() <= INTERNAL_NODE_MAX_CELLS
        &&& ascending(self.keys())
    }

    /// Turns a node into an internal node with no keys, not the root.
    pub fn new(node: CommonNode) -> (r: InternalNode)
        ensures
            r.node.header == (Header { node_type: NodeType::Internal, is_root: false, ..node.header }),
            r.cells@.len() == 0,
            r.right_child == 0,
            r.wf(),
    {
        let mut node = node;
        node.set_node_type(NodeType::Internal);
        node.set_root(false);
        InternalNode { node, right_child: 0, cells: Vec::new() }
    }

    pub fn num_keys(&self) -> (r: u32)
        requires
            self.wf(),
        ensures
            r == self.cells@.len(),
    {
        self.cells.len() as u32
    }

    pub fn right_child(&self) -> (r: u32)
        ensures
            r == self.right_child,
    {
        self.right_child
    }

    pub fn set_right_child(&mut self, right_child: u32)
        ensures
            final(self).right_child == right_child,
            final(self).node == old(self).node,
            final(self).cells == old(self).cells,
    {
        self.right_child = right_child;
    }

    /// The child at `child_num`; the right child when `child_num` is the key count.
    pub fn child(&self, child_num: u32) -> (r: u32)
        requires
            child_num <= self.cells@.len(),
        ensures
            r == self.children()[child_num as int],
    {
        if child_num as usize == self.cells.len() {
            self.right_child
        } else {
            self.cells[child_num as usize].child
        }
    }

    /// Sets the child at `child_num`; the right child when `child_num` is the key count.
    pub fn set_child(&mut self, child_num: u32, child: u32)
        requires
            child_num <= old(self).cells@.len(),
        ensures
            final(self).node == old(self).node,
            final(self).keys() == old(self).keys(),
            final(self).children() == old(self).children().update(child_num as int, child),
    {
        if child_num as usize == self.cells.len() {
            self.right_child = child;
        } else {
            let key = self.cells[child_num as usize].key;
            self.cells.set(child_num as usize, InternalCell { child, key });
        }
        assert(final(self).keys() =~= old(self).keys());
        assert(final(self).children() =~= old(self).children().update(child_num as int, child));
    }

    pub fn key(&self, key_num: u32) -> (r: u32)
        requires
            key_num < self.cells@.len(),
        ensures
            r == self.keys()[key_num as int],
    {
        self.cells[key_num as usize].key
    }

    pub fn set_key(&mut self, key_num: u32, key: u32)
        requires
            key_num < old(self).cells@.len(),
        ensures
            final(self).node == old(self).node,
            final(self).right_child == old(self).right_child,
            final(self).keys() == old(self).keys().update(key_num as int, key),
            final(self).children() == old(self).children(),
    {
        let child = self.cells[key_num as usize].child;
        self.cells.set(key_num as usize, InternalCell { child, key });
        assert(final(self).keys() =~= old(self).keys().update(key_num as int, key));
        assert(final(self).children() =~= old(self).children());
    }

    /// The index of the child whose subtree would hold `key`: the first separator at least
    /// `key`, or the right child when there is none.
    pub fn find_child(&self, key: u32) -> (r: u32)
        requires
            self.wf(),
        ensures
            is_rank(self.keys(), key, r as int),
    {
        let num_keys = self.cells.len();
        let mut min_index: usize = 0;
        let mut max_index: usize = num_keys;
        while min_index != max_index
            invariant
                self.wf(),
                num_keys == self.cells@.len(),
                0 <= min_index <= max_index <= num_keys,
                forall|i: int| 0 <= i < min_index ==> self.keys()[i] < key,
                forall|i: int| max_index <= i < num_keys ==> key <= self.keys()[i],
            decreases max_index - min_index,
        {
            let index = min_index + (max_index - min_index) / 2;
            let key_to_right = self.cells[index].key;
            assert(self.keys()[index as int] == key_to_right);
            if key_to_right >= key {
                max_index = index;
            } else {
                min_index = index + 1;
            }
        }
        min_index as u32
    }

    /// Replaces the separator that `old_key` falls under with `new_key`; nothing changes when
    /// `old_key` falls under the right child.
    pub fn update_key(&mut self, old_key: u32, new_key: u32)
        requires
            old(self).wf(),
        ensures
            final(self).node == old(self).node,
            final(self).right_child == old(self).right_child,
            final(self).children() == old(self).children(),
            rank(old(self).keys(), old_key) < old(self).keys().len() ==> final(self).keys()
                == old(self).keys().update(rank(old(self).keys(), old_key), new_key),
            rank(old(self).keys(), old_key) == old(self).keys().len() ==> final(self).keys()
                == old(self).keys(),
    {
        let old_child_index = self.find_child(old_key);
        proof {
            lemma_rank_unique(self.keys(), old_key, old_child_index as int);
        }
        if (old_child_index as usize) < self.cells.len() {
            self.set_key(old_child_index, new_key);
        }
    }

    /// The largest separator.
    pub fn get_max_key(&self) -> (r: u32)
        requires
            self.cells@.len() > 0,
        ensures
            r == self.keys().last(),
    {
        self.cells[self.cells.len() - 1].key
    }

    /// Adds `child_page_num`, whose largest key is `child_max_key`, given the largest key of the
    /// current right child. A child beyond the right child becomes the right child, and the old
    /// right child a cell; any other goes in as a cell where its key falls.
    pub fn insert(&mut self, child_page_num: u32, child_max_key: u32, right_child_max_key: u32)
        requires
            old(self).wf(),
            old(self).cells@.len() < INTERNAL_NODE_MAX_CELLS,
        ensures
            final(self).node == old(self).node,
            final(self).cells@.len() == old(self).cells@.len() + 1,
            child_max_key > right_child_max_key ==> {
                &&& final(self).keys() == old(self).keys().push(right_child_max_key)
                &&& final(self).children() == old(self).children().push(child_page_num)
            },
            child_max_key <= right_child_max_key ==> {
                let index = rank(old(self).keys(), child_max_key);
                &&& final(self).keys() == old(self).keys().insert(index, child_max_key)
                &&& final(self).children() == old(self).children().insert(index, child_page_num)
            },
    {
        let index = self.find_child(child_max_key);
        proof {
            lemma_rank_unique(self.keys(), child_max_key, index as int);
        }
        let right_child_page_num = self.right_child;
        if child_max_key > right_child_max_key {
            self.cells.push(InternalCell { child: right_child_page_num, key: right_child_max_key });
            self.right_child = child_page_num;
            assert(final(self).keys() =~= old(self).keys().push(right_child_max_key));
            assert(final(self).children() =~= old(self).children().push(child_page_num));
        } else {
            self.cells.insert(index as usize, InternalCell { child: child_page_num, key: child_max_key });
            assert(final(self).keys() =~= old(self).keys().insert(index as int, child_max_key));
            assert(final(self).children() =~= old(self).children().insert(
                index as int,
                child_page_num,
            ));
        }
    }
}

} // verus!
