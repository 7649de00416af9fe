//! The kinds of node of an on-disk B-tree index.
use vstd::prelude::*;

verus! {

/// Whether a node holds child pointers or entries.
#[derive(Clone, Copy, Debug, PartialEq, Eq, Structural)]
pub enum NodeType {
    Internal,
    Leaf,
}

impl NodeType {
    /// Whether the node is a leaf.
    pub fn is_leaf(self) -> (r: bool)
        ensures
            r == (self == NodeType::Leaf),
    {
        match self {
            NodeType::Internal => false,
            NodeType::Leaf => true,
        }
    }
}

} // verus!
