//! The header every node starts with.

use vstd::prelude::*;

verus! {

/// Bytes taken by the header that starts every page.
pub const COMMON_NODE_HEADER_SIZE: usize = 8;
pub const NODE_TYPE_OFFSET: usize = 0;
pub const IS_ROOT_OFFSET: usize = 1;
pub const PARENT_OFFSET: usize = 2;

/// The kind of a node, stored in the first byte of its page: 0 internal, 1 leaf.
#[derive(Debug, Clone, Copy, PartialEq, Eq, Structural)]
pub enum NodeType {
    Internal,
    Leaf,
}

/// The fields that every page starts with.
#[derive(Debug, Clone, Copy, PartialEq, Eq, Structural)]
pub struct Header {
    pub node_type: NodeType,
    pub is_root: bool,
    /// Page number of the parent; meaningless on the root.
    pub parent: u32,
}

/// The part of a node that every kind shares.
#[derive(Debug, Clone, Copy, PartialEq, Eq, Structural)]
pub struct CommonNode {
    pub header: Header,
}

impl CommonNode {
    pub open spec fn new_spec(node_type: NodeType) -> CommonNode {
        CommonNode { header: Header { node_type, is_root: false, parent: 0 } }
    }

    /// A fresh header of the given kind: not the root, parent 0.
    pub fn new(node_type: NodeType) -> (r: CommonNode)
        ensures
            r == CommonNode::new_spec(node_type),
    {
        CommonNode { header: Header { node_type, is_root: false, parent: 0 } }
    }

    pub fn node_type(&self) -> (r: NodeType)
        ensures
            r == self.header.node_type,
    {
        self.header.node_type
    }

    pub fn set_node_type(&mut self, node_type: NodeType)
        ensures
            final(self).header == (Header { node_type, ..old(self).header }),
    {
        self.header.node_type = node_type;
    }

    pub fn is_root(&self) -> (r: bool)
        ensures
            r == self.header.is_root,
    {
        self.header.is_root
    }

    pub fn set_root(&mut self, is_root: bool)
        ensures
            final(self).header == (Header { is_root, ..old(self).header }),
    {
        self.header.is_root = is_root;
    }

    pub fn parent(&self) -> (r: u32)
        ensures
            r == self.header.parent,
    {
        self.header.parent
    }

    pub fn set_parent(&mut self, parent: u32)
        ensures
            final(self).header == (Header { parent, ..old(self).header }),
    {
        self.header.parent = parent;
    }
}

} // verus!
