//! The table: search, insertion with leaf splits, cursors, opening and closing.

use crate::btree::{
    content, find_spec, insert_shape, insert_step, leaf_at, leaf_child_wf, leaf_index, leaf_order,
    leaf_rows, lemma_absent_key_at, lemma_cell_in_content, lemma_cells_insert,
    lemma_cells_subrange, lemma_completeness, lemma_content_sorted, lemma_find_rank,
    lemma_find_unique, lemma_insert_in_leaf, lemma_leaf_index, lemma_leaf_keys, lemma_offset_step,
    lemma_order_facts, lemma_persistence, lemma_split_parent_keys, lemma_split_root,
    lemma_split_under_internal, offset, root_internal, row_keys, tree_wf,
};
use crate::layout::TABLE_MAX_PAGES;
use crate::node::common::{CommonNode, Header, NodeType};
use crate::node::internal::{InternalCell, InternalNode, INTERNAL_NODE_MAX_CELLS};
use crate::node::leaf::{
    ascending, is_rank, lemma_rank_unique, rank, valid_value, LeafCell, LeafNode,
    LEAF_NODE_LEFT_SPLIT_COUNT, LEAF_NODE_MAX_CELLS,
};
use crate::node::{decoded_as, lemma_page_round_trip, page_bytes, Node};
use crate::pager::{page_readable, slot_wf, OpenError, Pager};
use crate::serialization::{
    encode_row, lemma_row_round_trip, row_bytes, row_decode, row_fits, Row, ROW_SIZE,
};
use crate::shape::is_tree;
use crate::storage::{Storage, StorageFactory};
use vstd::prelude::*;

verus! {

/// Why an insert was not done.
#[derive(Debug, Clone, Copy, PartialEq, Eq, Structural)]
pub enum ExecuteError {
    /// The key is already in the table.
    DuplicateKey,
    /// The leaf is full and the tree has no room to split it: the root is an internal node
    /// with all its keys, or the page limit is reached.
    TableFull,
}

/// The table: one B+tree rooted at page 0, over its pager.
pub struct Table<S> {
    pub pager: Pager<S>,
    pub root_page_num: u32,
}

/// A position in the table: a cell of a leaf, or the end.
#[derive(Debug, Clone, Copy, PartialEq, Eq, Structural)]
pub struct Cursor {
    pub page_num: u32,
    pub cell_num: u32,
    /// Set once the cursor has moved past the last cell.
    pub end_of_table: bool,
}

/// A full leaf can be split: an internal root has a free key and the tree a free page, or a
/// root leaf has two free pages.
pub open spec fn split_room(pages: Seq<Node>) -> bool {
    match pages[0] {
        Node::Leaf(_) => pages.len() + 2 <= TABLE_MAX_PAGES,
        Node::Internal(r) => r.cells@.len() < INTERNAL_NODE_MAX_CELLS && pages.len() + 1
            <= TABLE_MAX_PAGES,
    }
}

/// The cursor is at the cell where `key` belongs.
pub open spec fn cursor_at(pages: Seq<Node>, key: u32, cursor: Cursor) -> bool {
    exists|j: int|
        find_spec(pages, key, j, cursor.cell_num as int) && leaf_order(pages)[j]
            == cursor.page_num
}

/// The cursor is at a cell of a leaf of the order, or at the end.
pub open spec fn cursor_valid(pages: Seq<Node>, cursor: Cursor) -> bool {
    !cursor.end_of_table ==> {
        &&& leaf_order(pages).contains(cursor.page_num)
        &&& cursor.cell_num < leaf_at(pages, cursor.page_num as int).cells@.len()
    }
}

/// The index of the cursor's cell among the table's cells; the cell count at the end.
pub open spec fn cursor_index(pages: Seq<Node>, cursor: Cursor) -> int {
    if cursor.end_of_table {
        content(pages).len() as int
    } else {
        offset(pages, leaf_index(pages, cursor.page_num)) + cursor.cell_num
    }
}

impl Cursor {
    /// The encoded row under the cursor.
    pub fn value<'a, S>(&self, table: &'a Table<S>) -> (r: &'a [u8])
        requires
            table.wf(),
            cursor_valid(table.pages(), *self),
            !self.end_of_table,
        ensures
            r@ == table.rows()[cursor_index(table.pages(), *self)].1,
            row_decode(r@) matches Some(row) && row.0 == table.rows()[cursor_index(table.pages(), *self)].0,
            r@.len() == ROW_SIZE,
    {
        let ghost pages = table.pages();
        let ghost j = leaf_index(pages, self.page_num);
        proof {
            lemma_leaf_index(pages, j);
            lemma_order_facts(pages, j);
            lemma_cell_in_content(pages, j, self.cell_num as int);
        }
        match table.pager.page(self.page_num) {
            Node::Leaf(leaf) => {
                proof {
                    assert(valid_value(leaf.cells@[self.cell_num as int]));
                }
                leaf.value(self.cell_num)
            },
            Node::Internal(_) => {
                proof {
                    assert(false);
                }
                unreached()
            },
        }
    }

    /// Moves to the next cell, following the leaf chain; past the last cell the cursor is at the
    /// end.
    pub fn advance<S>(&mut self, table: &Table<S>)
        requires
            table.wf(),
            cursor_valid(table.pages(), *old(self)),
            !old(self).end_of_table,
        ensures
            cursor_valid(table.pages(), *final(self)),
            cursor_index(table.pages(), *final(self)) == cursor_index(table.pages(), *old(self)) + 1,
    {
        let ghost pages = table.pages();
        let ghost ord = leaf_order(pages);
        let ghost j = leaf_index(pages, self.page_num);
        proof {
            lemma_leaf_index(pages, j);
            lemma_order_facts(pages, j);
            lemma_offset_step(pages, j);
        }
        self.cell_num = self.cell_num + 1;
        match table.pager.page(self.page_num) {
            Node::Leaf(leaf) => {
                if self.cell_num >= leaf.num_cells() {
                    let next_page_num = leaf.next_leaf();
                    if next_page_num == 0 {
                        // This was the rightmost leaf.
                        self.end_of_table = true;
                        proof {
                            if pages[0] is Internal {
                                assert(j + 1 == ord.len()) by {
                                    if j + 1 < ord.len() {
                                        assert(leaf_child_wf(pages, ord, j));
                                    }
                                }
                            }
                        }
                    } else {
                        self.page_num = next_page_num;
                        self.cell_num = 0;
                        proof {
                            assert(pages[0] is Internal);
                            assert(j + 1 < ord.len());
                            assert(ord[j + 1] == next_page_num);
                            lemma_leaf_index(pages, j + 1);
                            lemma_order_facts(pages, j + 1);
                        }
                    }
                }
            },
            Node::Internal(_) => {
                proof {
                    assert(false);
                }
            },
        }
    }
}

impl<S> Table<S> {
    pub open spec fn pages(&self) -> Seq<Node> {
        self.pager.view()
    }

    /// The (key, row bytes) cells of the table in scan order.
    pub open spec fn rows(&self) -> Seq<(u32, Seq<u8>)> {
        content(self.pages())
    }

    pub open spec fn wf(&self) -> bool {
        &&& self.root_page_num == 0
        &&& self.pager.wf()
        &&& self.pager.loaded()
        &&& tree_wf(self.pages())
    }

    /// The leaf and cell where `key` is, or where it would be inserted.
    pub fn find(&self, key: u32) -> (r: Cursor)
        requires
            self.wf(),
        ensures
            !r.end_of_table,
            cursor_at(self.pages(), key, r),
            is_rank(row_keys(self.rows()), key, cursor_index(self.pages(), r)),
    {
        let ghost pages = self.pages();
        let root_page_num = self.root_page_num;
        match self.pager.page(root_page_num) {
            Node::Leaf(leaf) => {
                let cell_num = leaf.find(key);
                let r = Cursor { page_num: root_page_num, cell_num, end_of_table: false };
                proof {
                    assert(find_spec(pages, key, 0, cell_num as int));
                    lemma_find_rank(pages, key, 0, cell_num as int);
                    lemma_leaf_index(pages, 0);
                }
                r
            },
            Node::Internal(internal) => {
                let child_index = internal.find_child(key);
                let child_num = internal.child(child_index);
                proof {
                    lemma_order_facts(pages, child_index as int);
                }
                match self.pager.page(child_num) {
                    Node::Leaf(leaf) => {
                        let cell_num = leaf.find(key);
                        let r = Cursor { page_num: child_num, cell_num, end_of_table: false };
                        proof {
                            assert(find_spec(pages, key, child_index as int, cell_num as int));
                            lemma_find_rank(pages, key, child_index as int, cell_num as int);
                            lemma_leaf_index(pages, child_index as int);
                        }
                        r
                    },
                    Node::Internal(_) => {
                        proof {
                            assert(false);
                        }
                        Cursor { page_num: child_num, cell_num: 0, end_of_table: false }
                    },
                }
            },
        }
    }

    /// Splits the root leaf: its cells move to a new page that becomes the left child, and the
    /// root becomes an internal node over that page and `right_child_page_num`.
    fn create_new_root(&mut self, right_child_page_num: u32)
        requires
            old(self).root_page_num == 0,
            old(self).pager.wf(),
            old(self).pager.loaded(),
            old(self).pages().len() == 2,
            right_child_page_num == 1,
            old(self).pages()[0] matches Node::Leaf(l) && l.cells@.len() > 0,
            old(self).pages()[1] is Leaf,
        ensures
            final(self).pager.storage == old(self).pager.storage,
            final(self).pager.file_pages == old(self).pager.file_pages,
            old(self).pages().len() <= final(self).pages().len(),
            final(self).root_page_num == 0,
            final(self).pager.wf(),
            final(self).pager.loaded(),
            final(self).pages().len() == 3,
            ({
                let l = leaf_at(old(self).pages(), 0);
                let r = leaf_at(old(self).pages(), 1);
                let pages = final(self).pages();
                &&& pages[0] matches Node::Internal(nroot) && nroot.node.header == (Header {
                    node_type: NodeType::Internal,
                    is_root: true,
                    parent: 0,
                }) && nroot.children() == seq![2u32, 1u32] && nroot.keys() == seq![l.keys().last()]
                &&& pages[1] matches Node::Leaf(nr) && nr.node.header == (Header {
                    parent: 0,
                    ..r.node.header
                }) && nr.next_leaf == r.next_leaf && nr.cells == r.cells
                &&& pages[2] matches Node::Leaf(nl) && nl.node.header == (Header {
                    is_root: false,
                    parent: 0,
                    ..l.node.header
                }) && nl.next_leaf == l.next_leaf && nl.cells == l.cells
            }),
    {
        let root_page_num = self.root_page_num;
        let root = self.pager.take_page(root_page_num).unwrap_leaf();
        let left_child_max_key = root.get_max_key();

        // The old root, moved to a new page, becomes the left child.
        let left_child_page_num = self.pager.get_unused_page_num();
        let mut left_child = root;
        left_child.node.set_root(false);
        left_child.node.set_parent(root_page_num);
        self.pager.push_page(Node::Leaf(left_child));

        // The root becomes an internal node with one key and two children.
        let mut new_root = InternalNode::new(CommonNode::new(NodeType::Internal));
        new_root.node.set_root(true);
        new_root.cells.push(InternalCell { child: left_child_page_num, key: left_child_max_key });
        new_root.set_right_child(right_child_page_num);
        self.pager.put_page(root_page_num, Node::Internal(new_root));

        let mut right_child = self.pager.take_page(right_child_page_num);
        right_child.set_parent(root_page_num);
        self.pager.put_page(right_child_page_num, right_child);
        proof {
            let nroot = root_internal(self.pages());
            assert(nroot.children() =~= seq![2u32, 1u32]);
            assert(nroot.keys() =~= seq![left_child_max_key]);
        }
    }

    /// Adds `child_page_num` to the internal node at `parent_page_num` where its largest key
    /// falls; the child and the node's right child are non-empty leaves.
    fn internal_node_insert(&mut self, parent_page_num: u32, child_page_num: u32)
        requires
            old(self).pager.wf(),
            old(self).pager.loaded(),
            parent_page_num < old(self).pages().len(),
            child_page_num < old(self).pages().len(),
            old(self).pages()[parent_page_num as int] matches Node::Internal(n) && n.wf()
                && n.cells@.len() < INTERNAL_NODE_MAX_CELLS && n.right_child < old(self).pages().len()
                && (old(self).pages()[n.right_child as int] matches Node::Leaf(rl) && rl.cells@.len() > 0),
            old(self).pages()[child_page_num as int] matches Node::Leaf(cl) && cl.cells@.len() > 0,
        ensures
            final(self).pager.storage == old(self).pager.storage,
            final(self).pager.file_pages == old(self).pager.file_pages,
            old(self).pages().len() <= final(self).pages().len(),
            final(self).root_page_num == old(self).root_page_num,
            final(self).pager.wf(),
            final(self).pager.loaded(),
            ({
                let pages = old(self).pages();
                let n = match pages[parent_page_num as int] {
                    Node::Internal(n) => n,
                    Node::Leaf(_) => arbitrary(),
                };
                let child_max = leaf_at(pages, child_page_num as int).keys().last();
                let right_max = leaf_at(pages, n.right_child as int).keys().last();
                exists|n2: InternalNode|
                    {
                        &&& final(self).pages() == pages.update(parent_page_num as int, Node::Internal(n2))
                        &&& n2.node == n.node
                        &&& n2.cells@.len() == n.cells@.len() + 1
                        &&& child_max > right_max ==> {
                            &&& n2.keys() == n.keys().push(right_max)
                            &&& n2.children() == n.children().push(child_page_num)
                        }
                        &&& child_max <= right_max ==> {
                            &&& n2.keys() == n.keys().insert(rank(n.keys(), child_max), child_max)
                            &&& n2.children() == n.children().insert(rank(n.keys(), child_max), child_page_num)
                        }
                    }
            }),
    {
        let child_max_key = self.pager.page(child_page_num).get_max_key();
        let mut parent = self.pager.take_page(parent_page_num).unwrap_internal();
        let right_child_page_num = parent.right_child();
        let right_child_max_key = self.pager.page(right_child_page_num).get_max_key();
        parent.insert(child_page_num, child_max_key, right_child_max_key);
        proof {
            assert(parent.keys().len() == parent.cells@.len());
        }
        let ghost n2 = parent;
        self.pager.put_page(parent_page_num, Node::Internal(parent));
        proof {
            let pages = old(self).pages();
            let n = match pages[parent_page_num as int] {
                Node::Internal(n) => n,
                Node::Leaf(_) => arbitrary(),
            };
            assert(right_child_page_num != parent_page_num);
            assert(child_max_key == leaf_at(pages, child_page_num as int).keys().last());
            assert(right_child_max_key == leaf_at(pages, n.right_child as int).keys().last());
            assert(self.pages() =~= pages.update(parent_page_num as int, Node::Internal(n2)));
            assert(n2.node == n.node);
            let child_max = leaf_at(pages, child_page_num as int).keys().last();
            let right_max = leaf_at(pages, n.right_child as int).keys().last();
            assert(n.keys().len() == n.cells@.len());
            assert(n2.keys().len() == n2.cells@.len());
            assert(n2.cells@.len() == n.cells@.len() + 1);
            assert(child_max > right_max ==> n2.keys() == n.keys().push(right_max));
            assert(child_max > right_max ==> n2.children() == n.children().push(child_page_num));
            assert(child_max <= right_max ==> n2.keys() == n.keys().insert(rank(n.keys(), child_max), child_max));
            assert(child_max <= right_max ==> n2.children() == n.children().insert(rank(n.keys(), child_max), child_page_num));
        }
    }

    /// Inserts into the full leaf under the cursor: the leaf's cells and the new one are shared
    /// between the leaf (the lower half) and a new leaf on a new page (the upper half), which
    /// follows it in the leaf chain and is registered with the parent, or with a new root when
    /// the leaf was the root.
    fn leaf_node_split_and_insert(&mut self, cursor: Cursor, key: u32, value: Vec<u8>, Ghost(j): Ghost<int>)
        requires
            old(self).wf(),
            find_spec(old(self).pages(), key, j, cursor.cell_num as int),
            leaf_order(old(self).pages())[j] == cursor.page_num,
            ({
                let l = leaf_at(old(self).pages(), cursor.page_num as int);
                &&& l.cells@.len() == LEAF_NODE_MAX_CELLS
                &&& (cursor.cell_num == l.cells@.len() || l.keys()[cursor.cell_num as int] != key)
            }),
            split_room(old(self).pages()),
            valid_value(LeafCell { key, value }),
        ensures
            final(self).pager.storage == old(self).pager.storage,
            final(self).pager.file_pages == old(self).pager.file_pages,
            old(self).pages().len() <= final(self).pages().len(),
            final(self).wf(),
            final(self).rows() == old(self).rows().insert(
                offset(old(self).pages(), j) + cursor.cell_num,
                (key, value@),
            ),
            insert_shape(old(self).pages(), j, cursor.cell_num as int, key, value@, final(self).pages()),
    {
        let ghost pages = self.pages();
        let ghost value_view = value@;
        let ghost c = cursor.cell_num as int;
        let p = cursor.page_num;
        proof {
            lemma_order_facts(pages, j);
            assert(pages[p as int].wf());
        }
        let old_node = self.pager.take_page(p).unwrap_leaf();
        let old_max = old_node.get_max_key();
        let new_page_num = self.pager.get_unused_page_num();
        let LeafNode { node, next_leaf, cells } = old_node;
        let mut cells = cells;
        let new_cell = LeafCell { key, value };
        proof {
            let l = leaf_at(pages, p as int);
            assert forall|i: int| c <= i < cells@.len() implies key < cells@[i].key by {
                assert(l.keys()[i] == cells@[i].key);
                assert(l.keys()[c] == cells@[c].key);
                if i > c {
                    assert(l.keys()[c] < l.keys()[i]);
                }
            }
            assert forall|i: int| 0 <= i < c implies cells@[i].key < key by {
                assert(l.keys()[i] == cells@[i].key);
            }
            lemma_cells_insert(cells@, c, new_cell);
        }
        cells.insert(cursor.cell_num as usize, new_cell);
        let ghost all = cells@;
        let right_cells = cells.split_off(LEAF_NODE_LEFT_SPLIT_COUNT);
        proof {
            lemma_cells_subrange(all, 0, 7);
            lemma_cells_subrange(all, 7, 14);
        }
        let parent_page_num = node.parent();
        let was_root = node.is_root();
        let new_node = LeafNode {
            node: CommonNode {
                header: Header { node_type: NodeType::Leaf, is_root: false, parent: parent_page_num },
            },
            next_leaf,
            cells: right_cells,
        };
        let left = LeafNode { node, next_leaf: new_page_num, cells };
        let new_max = left.get_max_key();
        self.pager.put_page(p, Node::Leaf(left));
        self.pager.push_page(Node::Leaf(new_node));
        if was_root {
            self.create_new_root(new_page_num);
            proof {
                let l = leaf_at(pages, 0);
                let t = l.pairs().insert(c, (key, value_view));
                let np = self.pages();
                lemma_leaf_keys(leaf_at(np, 2));
                assert(leaf_at(np, 2).pairs() == t.subrange(0, 7));
                assert(leaf_at(np, 1).pairs() == t.subrange(7, 14));
                assert(root_internal(np).keys() == seq![t[6].0]);
                lemma_split_root(pages, c, key, value_view, np);
            }
        } else {
            proof {
                lemma_split_parent_keys(pages, j, c, key, value_view);
                assert(leaf_child_wf(pages, leaf_order(pages), j));
                assert(pages[0].wf());
            }
            let mut parent = self.pager.take_page(parent_page_num).unwrap_internal();
            parent.update_key(old_max, new_max);
            proof {
                let r = root_internal(pages);
                if j < r.cells@.len() {
                    lemma_rank_unique(r.keys(), old_max, j);
                } else {
                    lemma_rank_unique(r.keys(), old_max, r.cells@.len() as int);
                }
                assert(parent.keys().len() == parent.cells@.len());
                assert(r.keys().len() == r.cells@.len());
            }
            self.pager.put_page(parent_page_num, Node::Internal(parent));
            proof {
                let r = root_internal(pages);
                let k = r.cells@.len() as int;
                let l = leaf_at(pages, p as int);
                let t = l.pairs().insert(c, (key, value_view));
                let tk = row_keys(t);
                let np = self.pages();
                let nl = leaf_at(np, p as int);
                lemma_leaf_keys(nl);
                assert(nl.pairs() == t.subrange(0, 7));
                assert(new_max == nl.keys()[6]);
                assert(new_max == tk[6]);
                assert(parent.right_child == r.children()[k]);
                if j < k {
                    lemma_order_facts(pages, k);
                    assert(r.children()[k] != p);
                    assert(np[r.children()[k] as int] == pages[r.children()[k] as int]);
                }
                assert(parent.wf());
            }
            self.internal_node_insert(parent_page_num, new_page_num);
            proof {
                let r = root_internal(pages);
                let k = r.cells@.len() as int;
                let l = leaf_at(pages, p as int);
                let t = l.pairs().insert(c, (key, value_view));
                let tk = row_keys(t);
                let np = self.pages();
                if j < k {
                    lemma_rank_unique(r.keys().update(j, tk[6]), tk[13], j + 1);
                }
                let n = pages.len() as int;
                let nl = leaf_at(np, p as int);
                let nr = leaf_at(np, n);
                let nroot = root_internal(np);
                lemma_leaf_keys(nl);
                lemma_leaf_keys(nr);
                assert(np.len() == n + 1);
                assert(forall|q: int| 1 <= q < n && q != p ==> np[q] == pages[q]);
                assert(nl.wf() && nl.node == l.node && nl.next_leaf == n);
                assert(nl.pairs() == t.subrange(0, 7));
                assert(nr.wf());
                assert(nr.pairs() == t.subrange(7, 14));
                assert(nroot.node == r.node);
                assert(nroot.cells@.len() == k + 1);
                assert(nroot.children() == r.children().insert(j + 1, n as u32));
                assert(t[6].0 == new_max);
                assert(nroot.keys() == if j < k {
                    r.keys().update(j, t[6].0).insert(j + 1, t[13].0)
                } else {
                    r.keys().push(t[6].0)
                });
                lemma_split_under_internal(pages, j, c, key, value_view, np);
            }
        }
    }

    /// A cursor at the first cell, or at the end of an empty table.
    pub fn start(&self) -> (r: Cursor)
        requires
            self.wf(),
        ensures
            cursor_valid(self.pages(), r),
            cursor_index(self.pages(), r) == 0,
            r.cell_num == 0,
            r.page_num == leaf_order(self.pages())[0],
            r.end_of_table == (leaf_at(self.pages(), r.page_num as int).cells@.len() == 0),
    {
        let ghost pages = self.pages();
        let mut cursor = self.find(0);
        let ghost j = choose|j: int|
            find_spec(pages, 0, j, cursor.cell_num as int) && leaf_order(pages)[j] == cursor.page_num;
        proof {
            lemma_order_facts(pages, j);
            lemma_leaf_index(pages, j);
            if j > 0 {
                assert(root_internal(pages).keys()[j - 1] < 0);
            }
            if cursor.cell_num > 0 {
                assert(leaf_at(pages, cursor.page_num as int).keys()[0] < 0);
            }
            lemma_offset_step(pages, 0);
            assert(leaf_rows(pages, leaf_order(pages)).subrange(0, 0) =~= Seq::<Seq<(u32, Seq<u8>)>>::empty());
        }
        let num_cells = match self.pager.page(cursor.page_num) {
            Node::Leaf(leaf) => leaf.num_cells(),
            Node::Internal(_) => {
                proof {
                    assert(false);
                }
                0
            },
        };
        cursor.end_of_table = num_cells == 0;
        proof {
            if num_cells == 0 {
                assert(pages[0] is Leaf);
                assert(leaf_rows(pages, leaf_order(pages)) =~= seq![leaf_at(pages, 0).pairs()]);
                seq![leaf_at(pages, 0).pairs()].lemma_flatten_one_element();
                lemma_leaf_keys(leaf_at(pages, 0));
            }
        }
        cursor
    }

    /// Whether a full leaf could be split now.
    pub fn has_split_room(&self) -> (r: bool)
        requires
            self.wf(),
        ensures
            r == split_room(self.pages()),
    {
        match self.pager.page(0) {
            Node::Leaf(_) => self.pager.num_pages as usize + 2 <= TABLE_MAX_PAGES,
            Node::Internal(root) => root.cells.len() < INTERNAL_NODE_MAX_CELLS
                && self.pager.num_pages as usize + 1 <= TABLE_MAX_PAGES,
        }
    }

    /// Inserts `(key, value)` at the cursor that `find(key)` gave for a key not in the table.
    /// A full leaf is split; where the tree has no room for that, nothing changes and the
    /// table is full.
    pub fn leaf_node_insert(&mut self, cursor: Cursor, key: u32, value: &Row) -> (r: Result<(), ExecuteError>)
        requires
            old(self).wf(),
            cursor_at(old(self).pages(), key, cursor),
            !row_keys(old(self).rows()).contains(key),
            key == value.id,
            row_fits(value.username@, value.email@),
        ensures
            final(self).pager.storage == old(self).pager.storage,
            final(self).pager.file_pages == old(self).pager.file_pages,
            old(self).pages().len() <= final(self).pages().len(),
            final(self).wf(),
            r is Ok <==> (leaf_at(old(self).pages(), cursor.page_num as int).cells@.len()
                < LEAF_NODE_MAX_CELLS || split_room(old(self).pages())),
            r is Ok ==> exists|pos: int|
                0 <= pos <= old(self).rows().len() && final(self).rows() == old(self).rows().insert(
                    pos,
                    (key, row_bytes(value.id, value.username@, value.email@)),
                ),
            r is Err ==> r == Err::<(), ExecuteError>(ExecuteError::TableFull) && final(self).pages()
                == old(self).pages(),
            r is Ok ==> forall|j: int|
                find_spec(old(self).pages(), key, j, cursor.cell_num as int) && leaf_order(
                    old(self).pages(),
                )[j] == cursor.page_num ==> #[trigger] insert_shape(
                    old(self).pages(),
                    j,
                    cursor.cell_num as int,
                    key,
                    row_bytes(value.id, value.username@, value.email@),
                    final(self).pages(),
                ),
    {
        let ghost pages = self.pages();
        let ghost j = choose|j: int|
            find_spec(pages, key, j, cursor.cell_num as int) && leaf_order(pages)[j] == cursor.page_num;
        let ghost c = cursor.cell_num as int;
        let p = cursor.page_num;
        let bytes = encode_row(value);
        proof {
            lemma_row_round_trip(value.id, value.username@, value.email@);
            lemma_order_facts(pages, j);
            lemma_absent_key_at(pages, key, j, c);
        }
        let num_cells = match self.pager.page(p) {
            Node::Leaf(leaf) => leaf.num_cells(),
            Node::Internal(_) => {
                proof {
                    assert(false);
                }
                0
            },
        };
        if num_cells as usize >= LEAF_NODE_MAX_CELLS {
            if !self.has_split_room() {
                return Err(ExecuteError::TableFull);
            }
            self.leaf_node_split_and_insert(cursor, key, bytes, Ghost(j));
            proof {
                assert forall|j2: int|
                    find_spec(pages, key, j2, cursor.cell_num as int) && leaf_order(pages)[j2]
                        == cursor.page_num implies #[trigger] insert_shape(
                    pages,
                    j2,
                    cursor.cell_num as int,
                    key,
                    row_bytes(value.id, value.username@, value.email@),
                    self.pages(),
                ) by {
                    lemma_find_unique(pages, key, j, c, j2, c);
                }
            }
            return Ok(());
        }
        self.insert_into_leaf(cursor, key, bytes, Ghost(j));
        proof {
            assert forall|j2: int|
                find_spec(pages, key, j2, cursor.cell_num as int) && leaf_order(pages)[j2]
                    == cursor.page_num implies #[trigger] insert_shape(
                pages,
                j2,
                cursor.cell_num as int,
                key,
                row_bytes(value.id, value.username@, value.email@),
                self.pages(),
            ) by {
                lemma_find_unique(pages, key, j, c, j2, c);
            }
        }
        Ok(())
    }

    /// Puts `(key, value)` into the leaf under the cursor, which has room.
    fn insert_into_leaf(&mut self, cursor: Cursor, key: u32, value: Vec<u8>, Ghost(j): Ghost<int>)
        requires
            old(self).wf(),
            find_spec(old(self).pages(), key, j, cursor.cell_num as int),
            leaf_order(old(self).pages())[j] == cursor.page_num,
            ({
                let l = leaf_at(old(self).pages(), cursor.page_num as int);
                &&& l.cells@.len() < LEAF_NODE_MAX_CELLS
                &&& (cursor.cell_num == l.cells@.len() || l.keys()[cursor.cell_num as int] != key)
            }),
            valid_value(LeafCell { key, value }),
        ensures
            final(self).pager.storage == old(self).pager.storage,
            final(self).pager.file_pages == old(self).pager.file_pages,
            old(self).pages().len() <= final(self).pages().len(),
            final(self).wf(),
            final(self).rows() == old(self).rows().insert(
                offset(old(self).pages(), j) + cursor.cell_num,
                (key, value@),
            ),
            insert_shape(old(self).pages(), j, cursor.cell_num as int, key, value@, final(self).pages()),
    {
        let ghost pages = self.pages();
        let ghost c = cursor.cell_num as int;
        let p = cursor.page_num;
        let bytes = value;
        proof {
            lemma_order_facts(pages, j);
        }
        let mut leaf = self.pager.take_page(p).unwrap_leaf();
        proof {
            let l = leaf_at(pages, p as int);
            assert(leaf == l);
            assert forall|i: int| c <= i < l.cells@.len() implies key < l.cells@[i].key by {
                assert(l.keys()[i] == l.cells@[i].key);
                assert(l.keys()[c] == l.cells@[c].key);
                if i > c {
                    assert(l.keys()[c] < l.keys()[i]);
                }
            }
            assert forall|i: int| 0 <= i < c implies l.cells@[i].key < key by {
                assert(l.keys()[i] == l.cells@[i].key);
            }
        }
        let ghost bytes_view = bytes@;
        leaf.insert_cell(cursor.cell_num, key, bytes);
        let ghost new_leaf = leaf;
        self.pager.put_page(p, Node::Leaf(leaf));
        proof {
            lemma_insert_in_leaf(pages, j, c, key, bytes_view, new_leaf);
            assert(self.pages() == pages.update(p as int, Node::Leaf(new_leaf)));
        }
    }
}

} // verus!

verus! {

/// The slot holds a well-formed node that the page `b` decodes to.
pub open spec fn decoded_slot(slot: Option<Node>, b: Seq<u8>) -> bool {
    slot matches Some(n) && decoded_as(b, n) && n.wf()
}

/// The pages of a new table: one empty leaf, the root.
pub open spec fn empty_root(pages: Seq<Node>) -> bool {
    &&& pages.len() == 1
    &&& pages[0] matches Node::Leaf(l) && l.cells@.len() == 0 && l.next_leaf == 0
        && l.node.header == (Header { node_type: NodeType::Leaf, is_root: true, parent: 0 })
}

/// `stored` is the bytes of the pages of some well-formed tree.
pub open spec fn holds_tree(stored: Seq<Seq<u8>>) -> bool {
    exists|pages: Seq<Node>| tree_wf(pages) && stored == pages.map_values(|n: Node| page_bytes(n))
}

impl<S: Storage> Table<S> {
    /// Opens the table that `storage` holds: an empty storage gives an empty table whose root is
    /// an empty leaf. The bytes of a well-formed tree give a table with that tree's cells.
    pub fn from_storage(storage: S) -> (r: Result<Table<S>, OpenError>)
        requires
            storage.inv(),
        ensures
            r matches Ok(t) ==> {
                &&& t.wf()
                &&& t.pager.storage_ok()
                &&& t.pager.storage.pages() == storage.pages()
                &&& storage.pages().len() == 0 ==> t.rows().len() == 0 && empty_root(t.pages())
                &&& forall|pages: Seq<Node>|
                    tree_wf(pages) && storage.pages() == pages.map_values(|n: Node| page_bytes(n))
                        ==> #[trigger] content(pages) == t.rows()
            },
            r matches Err(e) ==> match e {
                OpenError::TooManyPages => storage.pages().len() > TABLE_MAX_PAGES,
                OpenError::CorruptPage => exists|i: int|
                    0 <= i < storage.pages().len() && !page_readable(#[trigger] storage.pages()[i]),
                OpenError::CorruptTree => !holds_tree(storage.pages()),
            },
            storage.pages().len() == 0 || holds_tree(storage.pages()) ==> r is Ok,
    {
        let ghost stored = storage.pages();
        proof {
            if holds_tree(stored) {
                let pages0 = choose|pages: Seq<Node>| tree_wf(pages) && stored == pages.map_values(|n: Node| page_bytes(n));
                assert forall|i: int| 0 <= i < stored.len() implies page_readable(#[trigger] stored[i]) by {
                    assert(pages0[i].wf());
                    lemma_page_round_trip(pages0[i]);
                    assert(decoded_as(stored[i], pages0[i]));
                }
            }
        }
        let mut pager = match Pager::open(storage) {
            Ok(p) => p,
            Err(e) => {
                return Err(e);
            },
        };
        if pager.num_pages == 0 {
            // A new database: page 0 becomes the root, an empty leaf.
            pager.new_leaf_page(0);
            let mut root = pager.take_page(0);
            root.set_root(true);
            pager.put_page(0, root);
            let table = Table { pager, root_page_num: 0 };
            proof {
                let pages = table.pages();
                assert(tree_wf(pages));
                assert(leaf_rows(pages, leaf_order(pages)) =~= seq![leaf_at(pages, 0).pairs()]);
                seq![leaf_at(pages, 0).pairs()].lemma_flatten_one_element();
            }
            return Ok(table);
        }
        // Read every page: the tree's invariants are stated over decoded nodes, so a page that
        // does not decode is reported now rather than met in the middle of an insert.
        let mut i: u32 = 0;
        while i < pager.num_pages
            invariant
                pager.wf(),
                pager.storage_ok(),
                pager.storage.pages() == stored,
                stored == storage.pages(),
                pager.num_pages == stored.len(),
                pager.file_pages == stored.len(),
                0 <= i <= pager.num_pages,
                forall|k: int| 0 <= k < i ==> #[trigger] decoded_slot(pager.slots@[k], stored[k]),
                forall|k: int| i <= k < TABLE_MAX_PAGES ==> (#[trigger] pager.slots@[k]) is None,
                holds_tree(stored) ==> forall|k: int| 0 <= k < stored.len() ==> page_readable(#[trigger] stored[k]),
            decreases pager.num_pages - i,
        {
            match pager.get_page(i) {
                Ok(()) => {},
                Err(e) => {
                    proof {
                        assert(!page_readable(stored[i as int]));
                    }
                    return Err(e);
                },
            }
            proof {
                assert forall|k: int| 0 <= k < i + 1 implies #[trigger] decoded_slot(pager.slots@[k], stored[k]) by {}
            }
            i = i + 1;
        }
        proof {
            assert forall|k: int| 0 <= k < pager.num_pages implies (#[trigger] pager.slots@[k]) is Some by {
                assert(decoded_slot(pager.slots@[k], stored[k]));
            }
            assert forall|k: int| 0 <= k < pager.view().len() implies decoded_as(stored[k], #[trigger] pager.view()[k])
                && pager.view()[k].wf() by {
                assert(decoded_slot(pager.slots@[k], stored[k]));
            }
        }
        if !is_tree(&pager) {
            proof {
                if holds_tree(stored) {
                    let pages0 = choose|pages: Seq<Node>| tree_wf(pages) && stored == pages.map_values(|n: Node| page_bytes(n));
                    lemma_persistence(pages0, pager.view());
                }
            }
            return Err(OpenError::CorruptTree);
        }
        let table = Table { pager, root_page_num: 0 };
        proof {
            assert forall|pages0: Seq<Node>|
                tree_wf(pages0) && stored == pages0.map_values(|n: Node| page_bytes(n)) implies #[trigger] content(pages0) == table.rows() by {
                lemma_persistence(pages0, table.pages());
            }
        }
        Ok(table)
    }

    /// Opens the table stored under `filename`.
    pub fn open<'a, F: StorageFactory<'a, S>>(factory: &'a mut F, filename: &'a str) -> (r: Result<Table<S>, OpenError>)
        where
            S: 'a,
        requires
            old(factory).inv(),
        ensures
            r matches Ok(t) ==> {
                &&& t.wf()
                &&& t.pager.storage_ok()
                &&& t.pager.storage.pages() == old(factory).stored(filename@)
            },
            old(factory).stored(filename@).len() == 0 ==> (r matches Ok(t) && t.rows().len() == 0
                && empty_root(t.pages())),
            forall|pages: Seq<Node>|
                tree_wf(pages) && old(factory).stored(filename@) == pages.map_values(
                    |n: Node| page_bytes(n),
                ) ==> (r matches Ok(t) && #[trigger] content(pages) == t.rows()),
            r matches Err(e) ==> match e {
                OpenError::TooManyPages => old(factory).stored(filename@).len() > TABLE_MAX_PAGES,
                OpenError::CorruptPage => exists|i: int|
                    0 <= i < old(factory).stored(filename@).len() && !page_readable(
                        #[trigger] old(factory).stored(filename@)[i],
                    ),
                OpenError::CorruptTree => !holds_tree(old(factory).stored(filename@)),
            },
    {
        let storage = factory.open(filename);
        Table::from_storage(storage)
    }

    /// Writes every page back and hands the storage back: it then holds the bytes of each page.
    pub fn close(self) -> (r: S)
        requires
            self.wf(),
            self.pager.storage_ok(),
        ensures
            r.inv(),
            r.pages() == self.pages().map_values(|n: Node| page_bytes(n)),
    {
        proof {
            assert forall|i: int| 0 <= i < self.pager.num_pages implies slot_wf(#[trigger] self.pager.slots@[i]) by {
                assert(self.pages()[i].wf());
            }
        }
        self.pager.close()
    }
}

} // verus!

verus! {

/// Completeness over a run of inserts: from a new table, attempts to insert `keys` one after
/// another (a repeated key refused) leave a tree whose scan gives exactly those keys, each once,
/// in ascending order.
pub proof fn lemma_inserts_complete(states: Seq<Seq<Node>>, keys: Seq<u32>)
    requires
        states.len() == keys.len() + 1,
        empty_root(states[0]),
        forall|i: int| 0 <= i < states.len() ==> tree_wf(#[trigger] states[i]),
        forall|i: int|
            0 <= i < keys.len() ==> #[trigger] insert_step(content(states[i]), content(states[i + 1]), keys[i]),
    ensures
        row_keys(content(states.last())).to_set() == keys.to_set(),
        row_keys(content(states.last())).no_duplicates(),
        ascending(row_keys(content(states.last()))),
{
    let cs = Seq::new(states.len(), |i: int| content(states[i]));
    let p0 = states[0];
    assert(leaf_rows(p0, leaf_order(p0)) =~= seq![leaf_at(p0, 0).pairs()]);
    seq![leaf_at(p0, 0).pairs()].lemma_flatten_one_element();
    lemma_leaf_keys(leaf_at(p0, 0));
    assert(cs[0].len() == 0);
    assert forall|i: int| 0 <= i < keys.len() implies #[trigger] insert_step(cs[i], cs[i + 1], keys[i]) by {
        assert(insert_step(content(states[i]), content(states[i + 1]), keys[i]));
    }
    lemma_completeness(cs, keys);
    assert(cs.last() == content(states.last()));
    assert(tree_wf(states[states.len() - 1]));
    lemma_content_sorted(states.last());
}

/// Persistence: the bytes that closing writes for a well-formed tree are bytes that reopening
/// accepts, and `from_storage` then gives that tree's rows.
pub proof fn lemma_closed_bytes_hold_tree(pages: Seq<Node>)
    requires
        tree_wf(pages),
    ensures
        holds_tree(pages.map_values(|n: Node| page_bytes(n))),
{
    assert(tree_wf(pages) && pages.map_values(|n: Node| page_bytes(n)) == pages.map_values(
        |n: Node| page_bytes(n),
    ));
}

} // verus!
