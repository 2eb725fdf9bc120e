//! The text the meta-commands print.

use crate::btree::{leaf_at, tree_wf};
use crate::layout::push_bytes;
use crate::node::common::COMMON_NODE_HEADER_SIZE;
use crate::node::internal::InternalNode;
use crate::node::leaf::{
    LeafNode, LEAF_NODE_CELL_SIZE, LEAF_NODE_HEADER_SIZE, LEAF_NODE_MAX_CELLS,
    LEAF_NODE_SPACE_FOR_CELLS,
};
use crate::node::Node;
use crate::serialization::{decimal, push_decimal, ROW_SIZE};
use crate::table::Table;
use vstd::prelude::*;
use vstd::string::StringSliceAdditionalSpecFns;

verus! {

fn push_str(out: &mut Vec<u8>, s: &str)
    ensures
        final(out)@ == old(out)@ + s.spec_bytes(),
{
    push_bytes(out, s.as_bytes());
}

/// Two spaces per level.
pub open spec fn indent(level: nat) -> Seq<u8>
    decreases level,
{
    if level == 0 {
        Seq::empty()
    } else {
        indent((level - 1) as nat) + "  ".spec_bytes()
    }
}

/// One line `- <key>` per key, at the given level.
pub open spec fn key_lines(keys: Seq<u32>, level: nat) -> Seq<u8>
    decreases keys.len(),
{
    if keys.len() == 0 {
        Seq::empty()
    } else {
        key_lines(keys.drop_last(), level) + indent(level) + "- ".spec_bytes() + decimal(
            keys.last() as nat,
        ) + "\n".spec_bytes()
    }
}

/// A leaf: `- leaf (size N)`, then its keys one level deeper.
pub open spec fn leaf_text(l: LeafNode, level: nat) -> Seq<u8> {
    indent(level) + "- leaf (size ".spec_bytes() + decimal(l.cells@.len()) + ")\n".spec_bytes()
        + key_lines(l.keys(), level + 1)
}

/// The first `i` children of an internal root, each followed by its separator.
pub open spec fn children_text(pages: Seq<Node>, r: InternalNode, level: nat, i: nat) -> Seq<u8>
    decreases i,
{
    if i == 0 {
        Seq::empty()
    } else {
        children_text(pages, r, level, (i - 1) as nat) + leaf_text(
            leaf_at(pages, r.children()[i - 1] as int),
            level,
        ) + indent(level) + "- key ".spec_bytes() + decimal(r.keys()[i - 1] as nat) + "\n".spec_bytes()
    }
}

/// The tree as `.btree` prints it after its first line.
pub open spec fn tree_text(pages: Seq<Node>) -> Seq<u8> {
    match pages[0] {
        Node::Leaf(l) => leaf_text(l, 0),
        Node::Internal(r) => "- internal (size ".spec_bytes() + decimal(r.cells@.len()) + ")\n".spec_bytes()
            + children_text(pages, r, 1, r.cells@.len()) + leaf_text(
            leaf_at(pages, r.right_child as int),
            1,
        ),
    }
}

fn push_indent(out: &mut Vec<u8>, level: u32)
    ensures
        final(out)@ == old(out)@ + indent(level as nat),
{
    let mut i: u32 = 0;
    while i < level
        invariant
            0 <= i <= level,
            out@ == old(out)@ + indent(i as nat),
        decreases level - i,
    {
        push_str(out, "  ");
        i = i + 1;
        assert(out@ =~= old(out)@ + indent(i as nat));
    }
}

fn push_leaf(out: &mut Vec<u8>, leaf: &LeafNode, level: u32)
    requires
        level < u32::MAX,
        leaf.wf(),
    ensures
        final(out)@ == old(out)@ + leaf_text(*leaf, level as nat),
{
    push_indent(out, level);
    push_str(out, "- leaf (size ");
    push_decimal(out, leaf.cells.len() as u32);
    push_str(out, ")\n");
    let ghost head = out@;
    let mut i: usize = 0;
    assert(leaf.keys().subrange(0, 0) =~= Seq::<u32>::empty());
    while i < leaf.cells.len()
        invariant
            0 <= i <= leaf.cells@.len(),
            level < u32::MAX,
            out@ == head + key_lines(leaf.keys().subrange(0, i as int), (level + 1) as nat),
        decreases leaf.cells@.len() - i,
    {
        push_indent(out, level + 1);
        push_str(out, "- ");
        push_decimal(out, leaf.cells[i].key);
        push_str(out, "\n");
        proof {
            let ks = leaf.keys().subrange(0, i + 1);
            assert(ks.drop_last() =~= leaf.keys().subrange(0, i as int));
            assert(ks.last() == leaf.cells@[i as int].key);
        }
        i = i + 1;
        assert(out@ =~= head + key_lines(leaf.keys().subrange(0, i as int), (level + 1) as nat));
    }
    assert(leaf.keys().subrange(0, leaf.cells@.len() as int) =~= leaf.keys());
    assert(leaf.cells@.len() < u32::MAX);
    assert(out@ =~= old(out)@ + leaf_text(*leaf, level as nat));
}

/// The text `.btree` prints after `Tree:`: each node, two spaces deeper per level. A leaf is
/// `- leaf (size N)` and a line `- <key>` per cell; an internal node is `- internal (size N)`,
/// then each child followed by `- key <k>`, then the right child.
pub fn print_tree<S>(table: &Table<S>) -> (r: Vec<u8>)
    requires
        table.wf(),
    ensures
        r@ == tree_text(table.pages()),
{
    let ghost pages = table.pages();
    let mut out: Vec<u8> = Vec::new();
    match table.pager.page(0) {
        Node::Leaf(leaf) => {
            assert(pages[0].wf());
            push_leaf(&mut out, leaf, 0);
        },
        Node::Internal(root) => {
            assert(pages[0].wf());
            push_str(&mut out, "- internal (size ");
            push_decimal(&mut out, root.cells.len() as u32);
            push_str(&mut out, ")\n");
            let ghost head = out@;
            let mut i: usize = 0;
            while i < root.cells.len()
                invariant
                    0 <= i <= root.cells@.len(),
                    table.wf(),
                    tree_wf(pages),
                    pages == table.pages(),
                    pages[0] == Node::Internal(*root),
                    out@ == head + children_text(pages, *root, 1, i as nat),
                decreases root.cells@.len() - i,
            {
                let child = root.child(i as u32);
                proof {
                    crate::btree::lemma_order_facts(pages, i as int);
                }
                match table.pager.page(child) {
                    Node::Leaf(leaf) => {
                        assert(pages[child as int].wf());
                        push_leaf(&mut out, leaf, 1)
                    },
                    Node::Internal(_) => {
                        proof {
                            assert(false);
                        }
                    },
                }
                push_indent(&mut out, 1);
                push_str(&mut out, "- key ");
                push_decimal(&mut out, root.cells[i].key);
                push_str(&mut out, "\n");
                assert(root.keys()[i as int] == root.cells@[i as int].key);
                i = i + 1;
                assert(out@ =~= head + children_text(pages, *root, 1, i as nat));
            }
            let right = root.right_child();
            proof {
                crate::btree::lemma_order_facts(pages, root.cells@.len() as int);
            }
            match table.pager.page(right) {
                Node::Leaf(leaf) => {
                    assert(pages[right as int].wf());
                    push_leaf(&mut out, leaf, 1)
                },
                Node::Internal(_) => {
                    proof {
                        assert(false);
                    }
                },
            }
            assert(out@ =~= tree_text(pages));
        },
    }
    out
}

/// The lines `.constants` prints after `Constants:`: each layout size by name.
pub open spec fn constants_text() -> Seq<u8> {
    "ROW_SIZE: ".spec_bytes() + decimal(ROW_SIZE as nat) + "\n".spec_bytes()
            + "COMMON_NODE_HEADER_SIZE: ".spec_bytes() + decimal(COMMON_NODE_HEADER_SIZE as nat) + "\n".spec_bytes()
            + "LEAF_NODE_HEADER_SIZE: ".spec_bytes() + decimal(LEAF_NODE_HEADER_SIZE as nat) + "\n".spec_bytes()
            + "LEAF_NODE_CELL_SIZE: ".spec_bytes() + decimal(LEAF_NODE_CELL_SIZE as nat) + "\n".spec_bytes()
            + "LEAF_NODE_SPACE_FOR_CELLS: ".spec_bytes() + decimal(LEAF_NODE_SPACE_FOR_CELLS as nat) + "\n".spec_bytes()
            + "LEAF_NODE_MAX_CELLS: ".spec_bytes() + decimal(LEAF_NODE_MAX_CELLS as nat) + "\n".spec_bytes()
}

/// The lines `.constants` prints after `Constants:`.
pub fn print_constants() -> (r: Vec<u8>)
    ensures
        r@ == constants_text(),
{
    let mut out: Vec<u8> = Vec::new();
    push_str(&mut out, "ROW_SIZE: ");
    push_decimal(&mut out, ROW_SIZE as u32);
    push_str(&mut out, "\n");
    push_str(&mut out, "COMMON_NODE_HEADER_SIZE: ");
    push_decimal(&mut out, COMMON_NODE_HEADER_SIZE as u32);
    push_str(&mut out, "\n");
    push_str(&mut out, "LEAF_NODE_HEADER_SIZE: ");
    push_decimal(&mut out, LEAF_NODE_HEADER_SIZE as u32);
    push_str(&mut out, "\n");
    push_str(&mut out, "LEAF_NODE_CELL_SIZE: ");
    push_decimal(&mut out, LEAF_NODE_CELL_SIZE as u32);
    push_str(&mut out, "\n");
    push_str(&mut out, "LEAF_NODE_SPACE_FOR_CELLS: ");
    push_decimal(&mut out, LEAF_NODE_SPACE_FOR_CELLS as u32);
    push_str(&mut out, "\n");
    push_str(&mut out, "LEAF_NODE_MAX_CELLS: ");
    push_decimal(&mut out, LEAF_NODE_MAX_CELLS as u32);
    push_str(&mut out, "\n");
    assert(out@ =~= "ROW_SIZE: ".spec_bytes() + decimal(ROW_SIZE as nat) + "\n".spec_bytes()
            + "COMMON_NODE_HEADER_SIZE: ".spec_bytes() + decimal(COMMON_NODE_HEADER_SIZE as nat) + "\n".spec_bytes()
            + "LEAF_NODE_HEADER_SIZE: ".spec_bytes() + decimal(LEAF_NODE_HEADER_SIZE as nat) + "\n".spec_bytes()
            + "LEAF_NODE_CELL_SIZE: ".spec_bytes() + decimal(LEAF_NODE_CELL_SIZE as nat) + "\n".spec_bytes()
            + "LEAF_NODE_SPACE_FOR_CELLS: ".spec_bytes() + decimal(LEAF_NODE_SPACE_FOR_CELLS as nat) + "\n".spec_bytes()
            + "LEAF_NODE_MAX_CELLS: ".spec_bytes() + decimal(LEAF_NODE_MAX_CELLS as nat) + "\n".spec_bytes());
    out
}

} // verus!
