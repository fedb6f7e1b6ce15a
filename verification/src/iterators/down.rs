//! The walk from the top down: every node before its children.

use crate::iterators::iter::{IterLeafNode, IterNode, IterStemNode, Visit};
use crate::octree::Octree;
use vstd::prelude::*;

verus! {

/// A walk over a tree from the top down.  It borrows the tree and keeps the
/// nodes still to be expanded on a stack; it goes over the tree once.
pub struct DownIterator<'a> {
    pub tree: &'a Octree,
    pub stack: Vec<Visit>,
}

/// What can be walked from the top down.
pub trait IntoDownIterator: Sized {
    type Item;

    type Iter;

    /// Whether a walk can start here.
    spec fn walkable(self) -> bool;

    /// Whether `iter` is a walk over `self` that has yielded nothing yet.
    spec fn starts_down(self, iter: Self::Iter) -> bool;

    /// Starts a walk from the top down.
    fn iter_down(self) -> (iter: Self::Iter)
        requires
            self.walkable(),
        ensures
            self.starts_down(iter),
    ;
}

impl<'a> DownIterator<'a> {
    /// The tree is sound and every entry of the stack names one of its nodes.
    pub open spec fn wf(&self) -> bool {
        &&& self.tree.wf()
        &&& forall|i: int| 0 <= i < self.stack@.len() ==> self.tree.visit_ok(#[trigger] self.stack@[i])
    }

    /// The nodes that the walk has still to yield, in order.
    pub open spec fn remaining(&self) -> Seq<IterNode> {
        self.tree.down_pending(self.stack@)
    }

    /// Yields the next node of the walk, or nothing once every node has been
    /// yielded.
    pub fn next(&mut self) -> (item: Option<IterNode>)
        requires
            old(self).wf(),
        ensures
            final(self).wf(),
            final(self).tree == old(self).tree,
            old(self).remaining().len() == 0 ==> item is None && final(self).remaining().len() == 0,
            old(self).remaining().len() > 0 ==> item == Some(old(self).remaining()[0])
                && final(self).remaining() == old(self).remaining().skip(1),
    {
        if self.stack.len() == 0 {
            return None;
        }
        let ghost before = self.stack@;
        let (idx, cube) = self.stack.pop().unwrap();
        let ghost rest = self.stack@;
        proof {
            assert(before.drop_last() == rest);
            assert(self.tree.visit_ok(before[before.len() - 1]));
        }
        if Octree::is_stem(idx) {
            let stem = self.tree.stems[idx as usize];
            let mut i: usize = 0;
            while i < 8
                invariant
                    0 <= i <= 8,
                    self.tree == old(self).tree,
                    self.tree.wf(),
                    idx < self.tree.stems@.len(),
                    !Octree::is_leaf_ref(idx),
                    stem == self.tree.stems@[idx as int],
                    cube.wf(),
                    self.tree.roomy(idx, cube.den as int),
                    forall|k: int|
                        0 <= k < self.stack@.len() ==> self.tree.visit_ok(#[trigger] self.stack@[k]),
                    self.tree.down_pending(self.stack@) == self.tree.down_kids(idx, cube, i as nat)
                        + self.tree.down_pending(rest),
                decreases 8 - i,
            {
                let child = stem.childs_idx[i];
                let ghost prev = self.stack@;
                proof {
                    assert(self.tree.child(idx as int, i as int) == child);
                    assert(self.tree.ref_ok(child, idx as int));
                }
                self.stack.push((child, cube.child_cube(i)));
                proof {
                    assert(self.stack@.drop_last() == prev);
                    assert(self.tree.down_pending(self.stack@) == self.tree.down(
                        child,
                        cube.child(i as int),
                    ) + self.tree.down_pending(prev));
                    assert(self.tree.down_kids(idx, cube, (i + 1) as nat) == self.tree.down(
                        child,
                        cube.child(i as int),
                    ) + self.tree.down_kids(idx, cube, i as nat));
                    assert(self.tree.down(child, cube.child(i as int)) + (self.tree.down_kids(
                        idx,
                        cube,
                        i as nat,
                    ) + self.tree.down_pending(rest)) =~= self.tree.down_kids(
                        idx,
                        cube,
                        (i + 1) as nat,
                    ) + self.tree.down_pending(rest));
                }
                i += 1;
            }
            proof {
                assert(old(self).remaining() =~= seq![Octree::node(idx, cube)]
                    + self.tree.down_pending(self.stack@));
            }
            return Some(IterNode::Stem(IterStemNode { node_idx: idx, cube }));
        }
        proof {
            assert(old(self).remaining() =~= seq![Octree::node(idx, cube)]
                + self.tree.down_pending(self.stack@));
        }
        Some(IterNode::Leaf(IterLeafNode { node_idx: Octree::leaf_number(idx), cube }))
    }
}

impl<'a> IntoDownIterator for &'a Octree {
    type Item = IterNode;

    type Iter = DownIterator<'a>;

    open spec fn walkable(self) -> bool {
        self.wf()
    }

    open spec fn starts_down(self, iter: DownIterator<'a>) -> bool {
        &&& iter.wf()
        &&& iter.tree == self
        &&& iter.remaining() == self.down(self.root, self.bounds)
    }

    fn iter_down(self) -> (iter: DownIterator<'a>) {
        let mut stack: Vec<Visit> = Vec::new();
        stack.push((self.root, self.bounds));
        let iter = DownIterator { tree: self, stack };
        proof {
            assert(iter.stack@.drop_last() =~= Seq::<Visit>::empty());
            assert(iter.stack@.last() == (self.root, self.bounds));
            assert(self.down_pending(Seq::<Visit>::empty()) =~= Seq::<IterNode>::empty());
            assert(iter.remaining() =~= self.down(self.root, self.bounds) + self.down_pending(
                Seq::<Visit>::empty(),
            ));
        }
        iter
    }
}

} // verus!
