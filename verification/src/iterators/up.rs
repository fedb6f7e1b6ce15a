//! The walk from the bottom up: every node after all of its descendants.

use crate::geometry::Cube;
use crate::iterators::iter::{IterLeafNode, IterNode, IterStemNode};
use crate::octree::Octree;
use vstd::prelude::*;

verus! {

/// An entry of the stack of a walk from the bottom up: a node reference,
/// whether the node's children have been pushed already, and the node's cube.
pub type Climb = (u32, bool, Cube);

/// A walk over a tree from the bottom up.  It borrows the tree and keeps the
/// nodes still to be yielded on a stack; it goes over the tree once.
pub struct UpIterator<'a> {
    pub tree: &'a Octree,
    pub stack: Vec<Climb>,
}

/// What can be walked from the bottom up.
pub trait IntoUpIterator: Sized {
    type Item;

    type Iter;

    /// Whether a walk can start here.
    spec fn climbable(self) -> bool;

    /// Whether `iter` is a walk over `self` that has yielded nothing yet.
    spec fn starts_up(self, iter: Self::Iter) -> bool;

    /// Starts a walk from the bottom up.
    fn iter_up(self) -> (iter: Self::Iter)
        requires
            self.climbable(),
        ensures
            self.starts_up(iter),
    ;
}

impl Octree {
    /// What one entry of the stack still has to yield: the node alone if its
    /// children have been pushed, else the whole walk over its subtree.
    pub open spec fn up_entry(&self, c: Climb) -> Seq<IterNode> {
        if c.1 {
            seq![Self::node(c.0, c.2)]
        } else {
            self.up(c.0, c.2)
        }
    }

    /// What a walk from the bottom up with the stack `stack` still has to
    /// yield: what its entries have to, from the last pushed to the first.
    pub open spec fn up_pending(&self, stack: Seq<Climb>) -> Seq<IterNode>
        decreases stack.len(),
    {
        if stack.len() == 0 {
            Seq::empty()
        } else {
            self.up_entry(stack.last()) + self.up_pending(stack.drop_last())
        }
    }

    /// The number of nodes under entries whose children have not been pushed.
    pub open spec fn up_weight(&self, stack: Seq<Climb>) -> nat
        decreases stack.len(),
    {
        if stack.len() == 0 {
            0
        } else {
            (if stack.last().1 {
                0nat
            } else {
                self.up(stack.last().0, stack.last().2).len()
            }) + self.up_weight(stack.drop_last())
        }
    }
}

impl<'a> UpIterator<'a> {
    /// The tree is sound and every entry of the stack names one of its nodes.
    pub open spec fn wf(&self) -> bool {
        &&& self.tree.wf()
        &&& forall|i: int|
            0 <= i < self.stack@.len() ==> self.tree.visit_ok(
                ((#[trigger] self.stack@[i]).0, self.stack@[i].2),
            )
    }

    /// The nodes that the walk has still to yield, in order.
    pub open spec fn remaining(&self) -> Seq<IterNode> {
        self.tree.up_pending(self.stack@)
    }

    /// Yields the next node of the walk, or nothing once every node has been
    /// yielded.
    pub fn next(&mut self) -> (item: Option<IterNode>)
        requires
            old(self).wf(),
        ensures
            final(self).wf(),
            final(self).tree == old(self).tree,
            old(self).remaining().len() == 0 ==> item is None && final(self).remaining().len() == 0,
            old(self).remaining().len() > 0 ==> item == Some(old(self).remaining()[0])
                && final(self).remaining() == old(self).remaining().skip(1),
    {
        loop
            invariant
                self.wf(),
                self.tree == old(self).tree,
                self.remaining() == old(self).remaining(),
            decreases self.tree.up_weight(self.stack@),
        {
            if self.stack.len() == 0 {
                return None;
            }
            let ghost before = self.stack@;
            let (idx, explored, cube) = self.stack.pop().unwrap();
            let ghost rest = self.stack@;
            proof {
                assert(before.drop_last() == rest);
                assert(before.last() == (idx, explored, cube));
                assert(self.tree.visit_ok((before[before.len() - 1].0, before[before.len() - 1].2)));
            }
            if !explored && Octree::is_stem(idx) {
                let stem = self.tree.stems[idx as usize];
                self.stack.push((idx, true, cube));
                let ghost base = self.stack@;
                proof {
                    assert(base.drop_last() == rest);
                    assert(self.tree.up_pending(base) == seq![Octree::node(idx, cube)]
                        + self.tree.up_pending(rest));
                    assert(self.tree.up_weight(base) == self.tree.up_weight(rest));
                    assert(self.tree.up_kids(idx, cube, 0) + self.tree.up_pending(base)
                        =~= self.tree.up_pending(base));
                }
                let mut i: usize = 0;
                while i < 8
                    invariant
                        0 <= i <= 8,
                        self.tree == old(self).tree,
                        self.tree.wf(),
                        idx < self.tree.stems@.len(),
                        !Octree::is_leaf_ref(idx),
                        stem == self.tree.stems@[idx as int],
                        cube.wf(),
                        self.tree.roomy(idx, cube.den as int),
                        forall|k: int|
                            0 <= k < self.stack@.len() ==> self.tree.visit_ok(
                                ((#[trigger] self.stack@[k]).0, self.stack@[k].2),
                            ),
                        self.tree.up_pending(self.stack@) == self.tree.up_kids(idx, cube, i as nat)
                            + self.tree.up_pending(base),
                        self.tree.up_weight(self.stack@) == self.tree.up_kids(
                            idx,
                            cube,
                            i as nat,
                        ).len() + self.tree.up_weight(base),
                    decreases 8 - i,
                {
                    let child = stem.childs_idx[i];
                    let ghost prev = self.stack@;
                    proof {
                        assert(self.tree.child(idx as int, i as int) == child);
                        assert(self.tree.ref_ok(child, idx as int));
                    }
                    self.stack.push((child, false, cube.child_cube(i)));
                    proof {
                        let walk = self.tree.up(child, cube.child(i as int));
                        assert(self.stack@.drop_last() == prev);
                        assert(self.stack@.last() == (child, false, cube.child(i as int)));
                        assert(self.tree.up_pending(self.stack@) == walk + self.tree.up_pending(
                            prev,
                        ));
                        assert(self.tree.up_kids(idx, cube, (i + 1) as nat) == walk
                            + self.tree.up_kids(idx, cube, i as nat));
                        assert(walk + (self.tree.up_kids(idx, cube, i as nat)
                            + self.tree.up_pending(base)) =~= self.tree.up_kids(
                            idx,
                            cube,
                            (i + 1) as nat,
                        ) + self.tree.up_pending(base));
                    }
                    i += 1;
                }
                proof {
                    let kids = self.tree.up_kids(idx, cube, 8);
                    let node = seq![Octree::node(idx, cube)];
                    assert(self.tree.up(idx, cube) == kids + node);
                    assert(kids + (node + self.tree.up_pending(rest)) =~= (kids + node)
                        + self.tree.up_pending(rest));
                    assert(self.tree.up_weight(before) == (kids + node).len()
                        + self.tree.up_weight(rest));
                }
            } else {
                proof {
                    assert(self.tree.up_entry((idx, explored, cube)) =~= seq![
                        Octree::node(idx, cube),
                    ]);
                    assert(old(self).remaining() =~= seq![Octree::node(idx, cube)]
                        + self.tree.up_pending(self.stack@));
                }
                if Octree::is_stem(idx) {
                    return Some(IterNode::Stem(IterStemNode { node_idx: idx, cube }));
                }
                return Some(IterNode::Leaf(IterLeafNode { node_idx: Octree::leaf_number(idx), cube }));
            }
        }
    }
}

impl<'a> IntoUpIterator for &'a Octree {
    type Item = IterNode;

    type Iter = UpIterator<'a>;

    open spec fn climbable(self) -> bool {
        self.wf()
    }

    open spec fn starts_up(self, iter: UpIterator<'a>) -> bool {
        &&& iter.wf()
        &&& iter.tree == self
        &&& iter.remaining() == self.up(self.root, self.bounds)
    }

    fn iter_up(self) -> (iter: UpIterator<'a>) {
        let mut stack: Vec<Climb> = Vec::new();
        stack.push((self.root, false, self.bounds));
        let iter = UpIterator { tree: self, stack };
        proof {
            assert(iter.stack@.drop_last() =~= Seq::<Climb>::empty());
            assert(iter.stack@.last() == (self.root, false, self.bounds));
            assert(self.up_pending(Seq::<Climb>::empty()) =~= Seq::<IterNode>::empty());
            assert(iter.remaining() =~= self.up(self.root, self.bounds) + self.up_pending(
                Seq::<Climb>::empty(),
            ));
        }
        iter
    }
}

} // verus!
