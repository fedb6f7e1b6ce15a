//! The walk over nodes and points together: from the top down, with the
//! points of each leaf right before the leaf itself.

use crate::geometry::{Cube, Point};
use crate::iterators::iter::Visit;
use crate::octree::Octree;
use vstd::prelude::*;

verus! {

/// A walk over the nodes and the points of a tree.  It borrows the tree,
/// keeps the nodes still to be expanded on a stack and counts the points
/// already yielded of the leaf on top of it; it goes over the tree once.
pub struct TreeIterator<'a> {
    pub tree: &'a Octree,
    pub stack: Vec<Visit>,
    pub point: u32,
}

/// What the walk over nodes and points yields: the cube of a node, or a point
/// of a leaf with its number.
#[derive(Clone, Copy, Debug)]
pub enum TreeElements {
    Node { cube: Cube },
    Point { index: u32, point: Point },
}

impl Octree {
    /// The point at position `i` of the permutation, as the walk yields it.
    pub open spec fn element_at(&self, i: int) -> TreeElements {
        TreeElements::Point { index: self.indices@[i], point: self.point_at(i) }
    }

    /// The walk over the first `n` children of the stem `r`, the last of them
    /// first.
    pub open spec fn elements_kids(&self, r: u32, cube: Cube, n: nat) -> Seq<TreeElements>
        decreases Self::rank(r), n,
    {
        if n == 0 || n > 8 {
            Seq::empty()
        } else if Self::rank(self.child(r as int, n - 1)) < Self::rank(r) {
            self.elements(self.child(r as int, n - 1), cube.child(n - 1)) + self.elements_kids(
                r,
                cube,
                (n - 1) as nat,
            )
        } else {
            self.elements_kids(r, cube, (n - 1) as nat)
        }
    }

    /// The walk over the subtree under `r`.  A leaf gives its points, in the
    /// order of the permutation, then its cube; a stem gives its cube, then
    /// the walks over its children, from the last octant to the first.
    pub open spec fn elements(&self, r: u32, cube: Cube) -> Seq<TreeElements>
        decreases Self::rank(r), 9nat,
    {
        if Self::is_leaf_ref(r) {
            let l = Self::leaf_index(r);
            if l < self.leafs@.len() {
                Seq::new(
                    (self.leafs@[l].end - self.leafs@[l].begin) as nat,
                    |k: int| self.element_at(self.leafs@[l].begin + k),
                ) + seq![TreeElements::Node { cube }]
            } else {
                seq![TreeElements::Node { cube }]
            }
        } else if r < self.stems@.len() {
            seq![TreeElements::Node { cube }] + self.elements_kids(r, cube, 8)
        } else {
            seq![TreeElements::Node { cube }]
        }
    }

    /// The walks over the entries of `stack`, from the last pushed to the
    /// first.
    pub open spec fn elements_pending(&self, stack: Seq<Visit>) -> Seq<TreeElements>
        decreases stack.len(),
    {
        if stack.len() == 0 {
            Seq::empty()
        } else {
            self.elements(stack.last().0, stack.last().1) + self.elements_pending(
                stack.drop_last(),
            )
        }
    }

    /// Starts a walk over the nodes and the points of the tree.
    pub fn iter_elements<'a>(&'a self) -> (iter: TreeIterator<'a>)
        requires
            self.wf(),
        ensures
            iter.wf(),
            iter.tree == self,
            iter.remaining() == self.elements(self.root, self.bounds),
    {
        let mut stack: Vec<Visit> = Vec::new();
        stack.push((self.root, self.bounds));
        let iter = TreeIterator { tree: self, stack, point: 0 };
        proof {
            assert(iter.stack@.drop_last() =~= Seq::<Visit>::empty());
            assert(iter.stack@.last() == (self.root, self.bounds));
            assert(self.elements_pending(Seq::<Visit>::empty()) =~= Seq::<TreeElements>::empty());
            assert(iter.remaining() =~= self.elements(self.root, self.bounds)
                + self.elements_pending(Seq::<Visit>::empty()));
        }
        iter
    }
}

impl<'a> TreeIterator<'a> {
    /// The tree is sound, every entry of the stack names one of its nodes,
    /// and the count of points yielded belongs to the leaf on top of the
    /// stack.
    pub open spec fn wf(&self) -> bool {
        &&& self.tree.wf()
        &&& forall|i: int| 0 <= i < self.stack@.len() ==> self.tree.visit_ok(#[trigger] self.stack@[i])
        &&& if self.stack@.len() > 0 && Octree::is_leaf_ref(self.stack@.last().0) {
            let leaf = self.tree.leafs@[Octree::leaf_index(self.stack@.last().0)];
            self.point <= leaf.end - leaf.begin
        } else {
            self.point == 0
        }
    }

    /// The nodes and points that the walk has still to yield, in order.
    pub open spec fn remaining(&self) -> Seq<TreeElements> {
        self.tree.elements_pending(self.stack@).skip(self.point as int)
    }

    /// Yields the next node or point of the walk, or nothing once everything
    /// has been yielded.
    pub fn next(&mut self) -> (item: Option<TreeElements>)
        requires
            old(self).wf(),
        ensures
            final(self).wf(),
            final(self).tree == old(self).tree,
            old(self).remaining().len() == 0 ==> item is None && final(self).remaining().len() == 0,
            old(self).remaining().len() > 0 ==> item == Some(old(self).remaining()[0])
                && final(self).remaining() == old(self).remaining().skip(1),
    {
        if self.stack.len() == 0 {
            return None;
        }
        let ghost before = self.stack@;
        let ghost rest = before.drop_last();
        let (idx, cube) = self.stack[self.stack.len() - 1];
        proof {
            assert(before.last() == (idx, cube));
            assert(self.tree.visit_ok(before[before.len() - 1]));
        }
        if Octree::is_stem(idx) {
            self.stack.pop();
            let stem = self.tree.stems[idx as usize];
            let mut i: usize = 0;
            while i < 8
                invariant
                    0 <= i <= 8,
                    self.tree == old(self).tree,
                    self.point == 0,
                    self.tree.wf(),
                    idx < self.tree.stems@.len(),
                    !Octree::is_leaf_ref(idx),
                    stem == self.tree.stems@[idx as int],
                    cube.wf(),
                    self.tree.roomy(idx, cube.den as int),
                    forall|k: int|
                        0 <= k < self.stack@.len() ==> self.tree.visit_ok(#[trigger] self.stack@[k]),
                    self.tree.elements_pending(self.stack@) == self.tree.elements_kids(
                        idx,
                        cube,
                        i as nat,
                    ) + self.tree.elements_pending(rest),
                decreases 8 - i,
            {
                let child = stem.childs_idx[i];
                let ghost prev = self.stack@;
                proof {
                    assert(self.tree.child(idx as int, i as int) == child);
                    assert(self.tree.ref_ok(child, idx as int));
                }
                self.stack.push((child, cube.child_cube(i)));
                proof {
                    let walk = self.tree.elements(child, cube.child(i as int));
                    assert(self.stack@.drop_last() == prev);
                    assert(self.tree.elements_pending(self.stack@) == walk
                        + self.tree.elements_pending(prev));
                    assert(self.tree.elements_kids(idx, cube, (i + 1) as nat) == walk
                        + self.tree.elements_kids(idx, cube, i as nat));
                    assert(walk + (self.tree.elements_kids(idx, cube, i as nat)
                        + self.tree.elements_pending(rest)) =~= self.tree.elements_kids(
                        idx,
                        cube,
                        (i + 1) as nat,
                    ) + self.tree.elements_pending(rest));
                }
                i += 1;
            }
            proof {
                assert(old(self).remaining() =~= seq![TreeElements::Node { cube }]
                    + self.tree.elements_pending(self.stack@));
                if self.stack@.len() > 0 {
                    assert(self.tree.visit_ok(self.stack@[self.stack@.len() - 1]));
                }
                self.lemma_cursor_at_rest();
            }
            return Some(TreeElements::Node { cube });
        }
        let idx: u32 = Octree::leaf_number(idx);
        let node = self.tree.leafs[idx as usize];
        let n_points: u32 = node.end - node.begin;
        let ghost points = Seq::new(
            n_points as nat,
            |k: int| self.tree.element_at(node.begin + k),
        );
        proof {
            assert(self.tree.elements_pending(before) == (points + seq![
                TreeElements::Node { cube },
            ]) + self.tree.elements_pending(rest));
        }

        if self.point >= n_points {
            self.stack.pop();
            self.point = 0;
            proof {
                assert(self.stack@ == rest);
                assert(old(self).remaining() =~= seq![TreeElements::Node { cube }]
                    + self.tree.elements_pending(rest));
                if self.stack@.len() > 0 {
                    assert(self.stack@[self.stack@.len() - 1] == before[self.stack@.len() - 1]);
                    assert(self.tree.visit_ok(before[self.stack@.len() - 1]));
                }
                self.lemma_cursor_at_rest();
            }
            return Some(TreeElements::Node { cube });
        }
        let point_idx: u32 = node.begin + self.point;
        proof {
            assert(old(self).remaining()[0] == points[self.point as int]);
            assert(self.tree.indices@[point_idx as int] < self.tree.points@.len());
        }
        self.point += 1;
        proof {
            assert(self.remaining() =~= old(self).remaining().skip(1));
        }
        let index: u32 = self.tree.indices[point_idx as usize];
        Some(TreeElements::Point { index, point: *self.tree.get_point(point_idx) })
    }

    /// With no point yielded of the entry on top of the stack, everything
    /// that the stack stands for is still to come.
    proof fn lemma_cursor_at_rest(&self)
        requires
            self.point == 0,
            self.tree.wf(),
            self.stack@.len() > 0 ==> self.tree.visit_ok(self.stack@.last()),
        ensures
            self.remaining() == self.tree.elements_pending(self.stack@),
            self.stack@.len() > 0 && Octree::is_leaf_ref(self.stack@.last().0) ==> self.point
                <= self.tree.leafs@[Octree::leaf_index(self.stack@.last().0)].end
                - self.tree.leafs@[Octree::leaf_index(self.stack@.last().0)].begin,
    {
        assert(self.tree.elements_pending(self.stack@).skip(0) =~= self.tree.elements_pending(
            self.stack@,
        ));
        if self.stack@.len() > 0 && Octree::is_leaf_ref(self.stack@.last().0) {
            let l = Octree::leaf_index(self.stack@.last().0);
            assert(self.tree.leafs@[l].begin <= self.tree.leafs@[l].end);
        }
    }
}

} // verus!
