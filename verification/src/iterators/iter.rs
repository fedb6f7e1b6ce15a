//! The nodes that a walk yields, and the orders in which walks visit them.

use crate::geometry::Cube;
use crate::octree::Octree;
use vstd::prelude::*;

verus! {

/// A stem met on a walk: its position in `stems` and its cube.
#[derive(Clone, Copy, Debug)]
pub struct IterStemNode {
    pub node_idx: u32,
    pub cube: Cube,
}

/// A leaf met on a walk: its position in `leafs` and its cube.
#[derive(Clone, Copy, Debug)]
pub struct IterLeafNode {
    pub node_idx: u32,
    pub cube: Cube,
}

/// A node met on a walk.
#[derive(Clone, Copy, Debug)]
pub enum IterNode {
    Stem(IterStemNode),
    Leaf(IterLeafNode),
}

/// An entry of a walk's stack: a node reference and the cube of that node.
pub type Visit = (u32, Cube);

impl IterNode {
    /// The reference of the node.
    pub open spec fn node_ref(self) -> u32 {
        match self {
            IterNode::Stem(s) => s.node_idx,
            IterNode::Leaf(l) => Octree::leaf_ref(l.node_idx as int),
        }
    }

    /// The cube of the node.
    pub open spec fn cube(self) -> Cube {
        match self {
            IterNode::Stem(s) => s.cube,
            IterNode::Leaf(l) => l.cube,
        }
    }
}

impl Octree {
    /// The node that reference `r` names, with its cube.
    pub open spec fn node(r: u32, cube: Cube) -> IterNode {
        if Self::is_leaf_ref(r) {
            IterNode::Leaf(IterLeafNode { node_idx: Self::leaf_index(r) as u32, cube })
        } else {
            IterNode::Stem(IterStemNode { node_idx: r, cube })
        }
    }

    /// A stack entry names a node of the tree, with a cube that can be
    /// subdivided all the way down the node's subtree.
    pub open spec fn visit_ok(&self, v: Visit) -> bool {
        &&& self.ref_ok(v.0, self.stems@.len() as int)
        &&& v.1.wf()
        &&& self.roomy(v.0, v.1.den as int)
    }

    /// The walk from the top down over the first `n` children of the stem
    /// `r`, the last of them first.
    pub open spec fn down_kids(&self, r: u32, cube: Cube, n: nat) -> Seq<IterNode>
        decreases Self::rank(r), n,
    {
        if n == 0 || n > 8 {
            Seq::empty()
        } else if Self::rank(self.child(r as int, n - 1)) < Self::rank(r) {
            self.down(self.child(r as int, n - 1), cube.child(n - 1)) + self.down_kids(
                r,
                cube,
                (n - 1) as nat,
            )
        } else {
            self.down_kids(r, cube, (n - 1) as nat)
        }
    }

    /// The walk from the top down over the subtree under `r`: the node, then
    /// the subtrees of its children, from the last octant to the first.
    pub open spec fn down(&self, r: u32, cube: Cube) -> Seq<IterNode>
        decreases Self::rank(r), 9nat,
    {
        if Self::is_leaf_ref(r) || r >= self.stems@.len() {
            seq![Self::node(r, cube)]
        } else {
            seq![Self::node(r, cube)] + self.down_kids(r, cube, 8)
        }
    }

    /// What a top-down walk with the stack `stack` still has to yield: the
    /// walks over its entries, from the last pushed to the first.
    pub open spec fn down_pending(&self, stack: Seq<Visit>) -> Seq<IterNode>
        decreases stack.len(),
    {
        if stack.len() == 0 {
            Seq::empty()
        } else {
            self.down(stack.last().0, stack.last().1) + self.down_pending(stack.drop_last())
        }
    }

    /// The walk from the bottom up over the first `n` children of the stem
    /// `r`, the last of them first.
    pub open spec fn up_kids(&self, r: u32, cube: Cube, n: nat) -> Seq<IterNode>
        decreases Self::rank(r), n,
    {
        if n == 0 || n > 8 {
            Seq::empty()
        } else if Self::rank(self.child(r as int, n - 1)) < Self::rank(r) {
            self.up(self.child(r as int, n - 1), cube.child(n - 1)) + self.up_kids(
                r,
                cube,
                (n - 1) as nat,
            )
        } else {
            self.up_kids(r, cube, (n - 1) as nat)
        }
    }

    /// The walk from the bottom up over the subtree under `r`: the subtrees of
    /// its children, from the last octant to the first, then the node.
    pub open spec fn up(&self, r: u32, cube: Cube) -> Seq<IterNode>
        decreases Self::rank(r), 9nat,
    {
        if Self::is_leaf_ref(r) || r >= self.stems@.len() {
            seq![Self::node(r, cube)]
        } else {
            self.up_kids(r, cube, 8) + seq![Self::node(r, cube)]
        }
    }
}

} // verus!
