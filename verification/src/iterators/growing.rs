//! The walks over a tree that grows: from the top down, from the bottom up,
//! and over nodes and points together.

use crate::geometry::{lemma_cube_nesting, Cube, Point};
use crate::incremental::IncrementalOctree;
use crate::iterators::down::IntoDownIterator;
use crate::iterators::up::IntoUpIterator;
use crate::types::Index;
use vstd::prelude::*;

verus! {

/// A node of a growing tree met on a walk: a stem with its number, or a leaf
/// with its number, either with its cube and the number of points below it.
#[derive(Clone, Copy, Debug)]
pub enum GrowingNode {
    Stem { stem: usize, cube: Cube, count: usize },
    Leaf { block: usize, cube: Cube, count: usize },
}

/// What the walk over nodes and points of a growing tree yields.
#[derive(Clone, Copy, Debug)]
pub enum GrowingElement {
    Node { cube: Cube },
    Point { point: Point },
}

/// An entry of the stack of a walk: a child reference that is not empty, and
/// the cube of the node it names.
pub type Step = (usize, Cube);

/// An entry of the stack of a walk from the bottom up: a child reference,
/// whether the children of the node have been pushed already, and the cube
/// of the node.
pub type Rise = (usize, bool, Cube);

impl IncrementalOctree {
    /// The reference to stem `s`.
    pub open spec fn stem_ref(s: int) -> usize {
        (8 * s) as usize
    }

    /// The node that reference `r` names, as a walk yields it.
    pub open spec fn node(&self, r: usize, cube: Cube) -> GrowingNode {
        if Self::is_block_ref(r) {
            GrowingNode::Leaf {
                block: Self::block_of(r) as usize,
                cube,
                count: self.fill@[Self::block_of(r)],
            }
        } else {
            GrowingNode::Stem {
                stem: Self::stem_of(r) as usize,
                cube,
                count: self.counts@[Self::stem_of(r)],
            }
        }
    }

    /// A stack entry names a leaf of the tree, with a sound cube, or a stem of
    /// the tree, with the cube of that stem.
    pub open spec fn step_ok(&self, v: Step) -> bool {
        if Self::is_block_ref(v.0) {
            Self::block_of(v.0) < self.blocks() && v.1.wf()
        } else {
            &&& Self::is_stem_ref(v.0)
            &&& v.0 % 8 == 0
            &&& Self::stem_of(v.0) < self.stems()
            &&& v.1 == self.cube_of(Self::stem_of(v.0))
        }
    }

    /// The measure that going to a child lowers.
    pub open spec fn height(&self, r: usize) -> nat {
        if Self::is_stem_ref(r) && Self::stem_of(r) < self.stems() {
            (self.stems() - Self::stem_of(r)) as nat
        } else {
            0
        }
    }

    /// Whether the walk goes into child `o` of stem `s`: the child is not
    /// empty, and a stem only if stored after `s`.
    pub open spec fn goes_into(&self, s: int, o: int) -> bool {
        let r = self.slot(s, o);
        !Self::is_empty_ref(r) && (Self::is_block_ref(r) || (Self::is_stem_ref(r) && s
            < Self::stem_of(r) < self.stems()))
    }

    /// The walk from the top down over the first `n` children of stem `s`,
    /// the last of them first; empty children are passed over.
    pub open spec fn down_kids(&self, s: int, cube: Cube, n: nat) -> Seq<GrowingNode>
        decreases self.stems() - s, n,
    {
        if n == 0 || n > 8 || s < 0 || s >= self.stems() {
            Seq::empty()
        } else if self.goes_into(s, n - 1) {
            self.down(self.slot(s, n - 1), cube.child(n - 1)) + self.down_kids(
                s,
                cube,
                (n - 1) as nat,
            )
        } else {
            self.down_kids(s, cube, (n - 1) as nat)
        }
    }

    /// The walk from the top down over the subtree under `r`: the node, then
    /// the subtrees of its children, from the last octant to the first.
    pub open spec fn down(&self, r: usize, cube: Cube) -> Seq<GrowingNode>
        decreases self.height(r), 9nat,
    {
        if Self::is_stem_ref(r) && Self::stem_of(r) < self.stems() {
            seq![self.node(r, cube)] + self.down_kids(Self::stem_of(r), cube, 8)
        } else {
            seq![self.node(r, cube)]
        }
    }

    /// What a walk from the top down with the stack `stack` has still to
    /// yield.
    pub open spec fn down_pending(&self, stack: Seq<Step>) -> Seq<GrowingNode>
        decreases stack.len(),
    {
        if stack.len() == 0 {
            Seq::empty()
        } else {
            self.down(stack.last().0, stack.last().1) + self.down_pending(stack.drop_last())
        }
    }

    /// The walk from the bottom up over the first `n` children of stem `s`,
    /// the last of them first; empty children are passed over.
    pub open spec fn up_kids(&self, s: int, cube: Cube, n: nat) -> Seq<GrowingNode>
        decreases self.stems() - s, n,
    {
        if n == 0 || n > 8 || s < 0 || s >= self.stems() {
            Seq::empty()
        } else if self.goes_into(s, n - 1) {
            self.up(self.slot(s, n - 1), cube.child(n - 1)) + self.up_kids(
                s,
                cube,
                (n - 1) as nat,
            )
        } else {
            self.up_kids(s, cube, (n - 1) as nat)
        }
    }

    /// The walk from the bottom up over the subtree under `r`: the subtrees
    /// of its children, from the last octant to the first, then the node.
    pub open spec fn up(&self, r: usize, cube: Cube) -> Seq<GrowingNode>
        decreases self.height(r), 9nat,
    {
        if Self::is_stem_ref(r) && Self::stem_of(r) < self.stems() {
            self.up_kids(Self::stem_of(r), cube, 8) + seq![self.node(r, cube)]
        } else {
            seq![self.node(r, cube)]
        }
    }

    /// What one entry of the stack of a walk from the bottom up has still to
    /// yield.
    pub open spec fn up_entry(&self, c: Rise) -> Seq<GrowingNode> {
        if c.1 {
            seq![self.node(c.0, c.2)]
        } else {
            self.up(c.0, c.2)
        }
    }

    /// What a walk from the bottom up with the stack `stack` has still to
    /// yield.
    pub open spec fn up_pending(&self, stack: Seq<Rise>) -> Seq<GrowingNode>
        decreases stack.len(),
    {
        if stack.len() == 0 {
            Seq::empty()
        } else {
            self.up_entry(stack.last()) + self.up_pending(stack.drop_last())
        }
    }

    /// The number of nodes under entries whose children have not been pushed.
    pub open spec fn up_weight(&self, stack: Seq<Rise>) -> nat
        decreases stack.len(),
    {
        if stack.len() == 0 {
            0
        } else {
            (if stack.last().1 {
                0nat
            } else {
                self.up(stack.last().0, stack.last().2).len()
            }) + self.up_weight(stack.drop_last())
        }
    }

    /// The points of leaf `k`, as the walk over nodes and points yields them.
    pub open spec fn leaf_elements(&self, k: int) -> Seq<GrowingElement> {
        Seq::new(self.fill@[k] as nat, |i: int| GrowingElement::Point { point: self.at(k, i) })
    }

    /// The walk over nodes and points of the first `n` children of stem `s`.
    pub open spec fn elements_kids(&self, s: int, cube: Cube, n: nat) -> Seq<GrowingElement>
        decreases self.stems() - s, n,
    {
        if n == 0 || n > 8 || s < 0 || s >= self.stems() {
            Seq::empty()
        } else if self.goes_into(s, n - 1) {
            self.elements(self.slot(s, n - 1), cube.child(n - 1)) + self.elements_kids(
                s,
                cube,
                (n - 1) as nat,
            )
        } else {
            self.elements_kids(s, cube, (n - 1) as nat)
        }
    }

    /// The walk over nodes and points of the subtree under `r`.  A leaf gives
    /// its points, in the order they came, then its cube; a stem gives its
    /// cube, then the walks over its children, from the last octant to the
    /// first.
    pub open spec fn elements(&self, r: usize, cube: Cube) -> Seq<GrowingElement>
        decreases self.height(r), 9nat,
    {
        if Self::is_stem_ref(r) && Self::stem_of(r) < self.stems() {
            seq![GrowingElement::Node { cube }] + self.elements_kids(Self::stem_of(r), cube, 8)
        } else if Self::is_block_ref(r) && Self::block_of(r) < self.blocks() {
            self.leaf_elements(Self::block_of(r)) + seq![GrowingElement::Node { cube }]
        } else {
            seq![GrowingElement::Node { cube }]
        }
    }

    /// The walks over the entries of `stack`, from the last pushed to the
    /// first.
    pub open spec fn elements_pending(&self, stack: Seq<Step>) -> Seq<GrowingElement>
        decreases stack.len(),
    {
        if stack.len() == 0 {
            Seq::empty()
        } else {
            self.elements(stack.last().0, stack.last().1) + self.elements_pending(
                stack.drop_last(),
            )
        }
    }

    /// The children of a stem that a walk meets are nodes of the tree, each
    /// with the cube of its octant.
    pub proof fn lemma_step_child(&self, s: int, cube: Cube, o: int)
        requires
            self.wf(),
            0 <= s < self.stems(),
            0 <= o < 8,
            cube == self.cube_of(s),
            !Self::is_empty_ref(self.slot(s, o)),
        ensures
            cube.wf(),
            4 * cube.den <= crate::geometry::DEN_MAX,
            self.goes_into(s, o),
            self.step_ok((self.slot(s, o), cube.child(o))),
            self.height(self.slot(s, o)) < self.height(Self::stem_ref(s)),
    {
        self.lemma_stem_cube(s);
        lemma_cube_nesting(cube, o);
        assert(self.slot_ok(s, o, 0));
        let r = self.slot(s, o);
        if Self::is_stem_ref(r) {
            assert(self.paths@[Self::stem_of(r)].drop_last() =~= self.paths@[s]);
        }
    }

    /// Reads the node that a stack entry names.
    fn read_node(&self, r: usize, cube: Cube) -> (node: GrowingNode)
        requires
            self.wf(),
            self.step_ok((r, cube)),
        ensures
            node == self.node(r, cube),
    {
        if r.is_leaf() {
            let k = Self::block_number(r);
            GrowingNode::Leaf { block: k, cube, count: self.fill[k] }
        } else {
            let s = r.node_block();
            GrowingNode::Stem { stem: s, cube, count: self.counts[s] }
        }
    }

    /// Starts a walk over the nodes and the points of the tree.
    pub fn iter_elements<'a>(&'a self) -> (iter: GrowingElements<'a>)
        requires
            self.wf(),
        ensures
            iter.wf(),
            iter.tree == self,
            iter.remaining() == self.elements(Self::stem_ref(0), self.bounds),
    {
        let mut stack: Vec<Step> = Vec::new();
        stack.push((usize::node_idx(0, 0), self.bounds));
        let iter = GrowingElements { tree: self, stack, point: 0 };
        proof {
            assert(iter.stack@.drop_last() =~= Seq::<Step>::empty());
            assert(iter.stack@.last() == (Self::stem_ref(0), self.bounds));
            assert(self.elements_pending(Seq::<Step>::empty()) =~= Seq::<GrowingElement>::empty());
            assert(self.elements_pending(iter.stack@) =~= self.elements(
                Self::stem_ref(0),
                self.bounds,
            ) + self.elements_pending(Seq::<Step>::empty()));
            assert(iter.remaining() =~= self.elements(Self::stem_ref(0), self.bounds));
        }
        iter
    }
}

/// A walk over a growing tree from the top down.
pub struct GrowingDown<'a> {
    pub tree: &'a IncrementalOctree,
    pub stack: Vec<Step>,
}

/// A walk over a growing tree from the bottom up.
pub struct GrowingUp<'a> {
    pub tree: &'a IncrementalOctree,
    pub stack: Vec<Rise>,
}

/// A walk over the nodes and the points of a growing tree.
pub struct GrowingElements<'a> {
    pub tree: &'a IncrementalOctree,
    pub stack: Vec<Step>,
    pub point: usize,
}

impl<'a> GrowingDown<'a> {
    /// The tree is sound and every entry of the stack names one of its nodes.
    pub open spec fn wf(&self) -> bool {
        &&& self.tree.wf()
        &&& forall|i: int| 0 <= i < self.stack@.len() ==> self.tree.step_ok(#[trigger] self.stack@[i])
    }

    /// The nodes that the walk has still to yield, in order.
    pub open spec fn remaining(&self) -> Seq<GrowingNode> {
        self.tree.down_pending(self.stack@)
    }

    /// Yields the next node of the walk, or nothing once every node has been
    /// yielded.
    #[verifier::rlimit(40)]
    pub fn next(&mut self) -> (item: Option<GrowingNode>)
        requires
            old(self).wf(),
        ensures
            final(self).wf(),
            final(self).tree == old(self).tree,
            old(self).remaining().len() == 0 ==> item is None && final(self).remaining().len() == 0,
            old(self).remaining().len() > 0 ==> item == Some(old(self).remaining()[0])
                && final(self).remaining() == old(self).remaining().skip(1),
    {
        if self.stack.len() == 0 {
            return None;
        }
        let ghost before = self.stack@;
        let (r, cube) = self.stack.pop().unwrap();
        let ghost rest = self.stack@;
        proof {
            assert(before.drop_last() == rest);
            assert(self.tree.step_ok(before[before.len() - 1]));
        }
        let node = self.tree.read_node(r, cube);
        if !r.is_leaf() {
            let stem: usize = r.node_block();
            let mut i: usize = 0;
            while i < 8
                invariant
                    0 <= i <= 8,
                    self.tree == old(self).tree,
                    self.tree.wf(),
                    stem < self.tree.stems(),
                    stem == IncrementalOctree::stem_of(r),
                    cube == self.tree.cube_of(stem as int),
                    forall|k: int|
                        0 <= k < self.stack@.len() ==> self.tree.step_ok(#[trigger] self.stack@[k]),
                    self.tree.down_pending(self.stack@) == self.tree.down_kids(
                        stem as int,
                        cube,
                        i as nat,
                    ) + self.tree.down_pending(rest),
                decreases 8 - i,
            {
                let child = self.tree.nodes[8 * stem + i];
                let ghost prev = self.stack@;
                if !child.is_empty() {
                    proof {
                        self.tree.lemma_step_child(stem as int, cube, i as int);
                    }
                    self.stack.push((child, cube.child_cube(i)));
                    proof {
                        let walk = self.tree.down(child, cube.child(i as int));
                        assert(self.stack@.drop_last() == prev);
                        assert(self.tree.down_pending(self.stack@) == walk
                            + self.tree.down_pending(prev));
                        assert(walk + (self.tree.down_kids(stem as int, cube, i as nat)
                            + self.tree.down_pending(rest)) =~= (walk + self.tree.down_kids(
                            stem as int,
                            cube,
                            i as nat,
                        )) + self.tree.down_pending(rest));
                    }
                }
                i += 1;
            }
            proof {
                assert(old(self).remaining() =~= seq![node] + self.tree.down_pending(self.stack@));
            }
            return Some(node);
        }
        proof {
            assert(old(self).remaining() =~= seq![node] + self.tree.down_pending(self.stack@));
        }
        Some(node)
    }
}

impl<'a> IntoDownIterator for &'a IncrementalOctree {
    type Item = GrowingNode;

    type Iter = GrowingDown<'a>;

    open spec fn walkable(self) -> bool {
        self.wf()
    }

    open spec fn starts_down(self, iter: GrowingDown<'a>) -> bool {
        &&& iter.wf()
        &&& iter.tree == self
        &&& iter.remaining() == self.down(IncrementalOctree::stem_ref(0), self.bounds)
    }

    fn iter_down(self) -> (iter: GrowingDown<'a>) {
        let mut stack: Vec<Step> = Vec::new();
        stack.push((usize::node_idx(0, 0), self.bounds));
        let iter = GrowingDown { tree: self, stack };
        proof {
            assert(iter.stack@.drop_last() =~= Seq::<Step>::empty());
            assert(iter.stack@.last() == (IncrementalOctree::stem_ref(0), self.bounds));
            assert(self.down_pending(Seq::<Step>::empty()) =~= Seq::<GrowingNode>::empty());
            assert(iter.remaining() =~= self.down(IncrementalOctree::stem_ref(0), self.bounds)
                + self.down_pending(Seq::<Step>::empty()));
        }
        iter
    }
}

impl<'a> GrowingUp<'a> {
    /// The tree is sound and every entry of the stack names one of its nodes.
    pub open spec fn wf(&self) -> bool {
        &&& self.tree.wf()
        &&& forall|i: int|
            0 <= i < self.stack@.len() ==> self.tree.step_ok(
                ((#[trigger] self.stack@[i]).0, self.stack@[i].2),
            )
    }

    /// The nodes that the walk has still to yield, in order.
    pub open spec fn remaining(&self) -> Seq<GrowingNode> {
        self.tree.up_pending(self.stack@)
    }

    /// Yields the next node of the walk, or nothing once every node has been
    /// yielded.
    #[verifier::rlimit(40)]
    pub fn next(&mut self) -> (item: Option<GrowingNode>)
        requires
            old(self).wf(),
        ensures
            final(self).wf(),
            final(self).tree == old(self).tree,
            old(self).remaining().len() == 0 ==> item is None && final(self).remaining().len() == 0,
            old(self).remaining().len() > 0 ==> item == Some(old(self).remaining()[0])
                && final(self).remaining() == old(self).remaining().skip(1),
    {
        loop
            invariant
                self.wf(),
                self.tree == old(self).tree,
                self.remaining() == old(self).remaining(),
            decreases self.tree.up_weight(self.stack@),
        {
            if self.stack.len() == 0 {
                return None;
            }
            let ghost before = self.stack@;
            let (r, explored, cube) = self.stack.pop().unwrap();
            let ghost rest = self.stack@;
            proof {
                assert(before.drop_last() == rest);
                assert(before.last() == (r, explored, cube));
                assert(self.tree.step_ok((before[before.len() - 1].0, before[before.len() - 1].2)));
            }
            if !explored && !r.is_leaf() {
                let stem: usize = r.node_block();
                self.stack.push((r, true, cube));
                let ghost base = self.stack@;
                proof {
                    assert(base.drop_last() == rest);
                    assert(self.tree.up_pending(base) == seq![self.tree.node(r, cube)]
                        + self.tree.up_pending(rest));
                    assert(self.tree.up_weight(base) == self.tree.up_weight(rest));
                    assert(self.tree.up_kids(stem as int, cube, 0) + self.tree.up_pending(base)
                        =~= self.tree.up_pending(base));
                }
                let mut i: usize = 0;
                while i < 8
                    invariant
                        0 <= i <= 8,
                        self.tree == old(self).tree,
                        self.tree.wf(),
                        stem < self.tree.stems(),
                        stem == IncrementalOctree::stem_of(r),
                        cube == self.tree.cube_of(stem as int),
                        forall|k: int|
                            0 <= k < self.stack@.len() ==> self.tree.step_ok(
                                ((#[trigger] self.stack@[k]).0, self.stack@[k].2),
                            ),
                        self.tree.up_pending(self.stack@) == self.tree.up_kids(
                            stem as int,
                            cube,
                            i as nat,
                        ) + self.tree.up_pending(base),
                        self.tree.up_weight(self.stack@) == self.tree.up_kids(
                            stem as int,
                            cube,
                            i as nat,
                        ).len() + self.tree.up_weight(base),
                    decreases 8 - i,
                {
                    let child = self.tree.nodes[8 * stem + i];
                    let ghost prev = self.stack@;
                    if !child.is_empty() {
                        proof {
                            self.tree.lemma_step_child(stem as int, cube, i as int);
                        }
                        self.stack.push((child, false, cube.child_cube(i)));
                        proof {
                            let walk = self.tree.up(child, cube.child(i as int));
                            assert(self.stack@.drop_last() == prev);
                            assert(self.stack@.last() == (child, false, cube.child(i as int)));
                            assert(self.tree.up_pending(self.stack@) == walk
                                + self.tree.up_pending(prev));
                            assert(walk + (self.tree.up_kids(stem as int, cube, i as nat)
                                + self.tree.up_pending(base)) =~= (walk + self.tree.up_kids(
                                stem as int,
                                cube,
                                i as nat,
                            )) + self.tree.up_pending(base));
                        }
                    }
                    i += 1;
                }
                proof {
                    let kids = self.tree.up_kids(stem as int, cube, 8);
                    let node = seq![self.tree.node(r, cube)];
                    assert(self.tree.up(r, cube) == kids + node);
                    assert(kids + (node + self.tree.up_pending(rest)) =~= (kids + node)
                        + self.tree.up_pending(rest));
                    assert(self.tree.up_weight(before) == (kids + node).len()
                        + self.tree.up_weight(rest));
                }
            } else {
                proof {
                    assert(self.tree.up_entry((r, explored, cube)) =~= seq![
                        self.tree.node(r, cube),
                    ]);
                    assert(old(self).remaining() =~= seq![self.tree.node(r, cube)]
                        + self.tree.up_pending(self.stack@));
                }
                return Some(self.tree.read_node(r, cube));
            }
        }
    }
}

impl<'a> IntoUpIterator for &'a IncrementalOctree {
    type Item = GrowingNode;

    type Iter = GrowingUp<'a>;

    open spec fn climbable(self) -> bool {
        self.wf()
    }

    open spec fn starts_up(self, iter: GrowingUp<'a>) -> bool {
        &&& iter.wf()
        &&& iter.tree == self
        &&& iter.remaining() == self.up(IncrementalOctree::stem_ref(0), self.bounds)
    }

    fn iter_up(self) -> (iter: GrowingUp<'a>) {
        let mut stack: Vec<Rise> = Vec::new();
        stack.push((usize::node_idx(0, 0), false, self.bounds));
        let iter = GrowingUp { tree: self, stack };
        proof {
            assert(iter.stack@.drop_last() =~= Seq::<Rise>::empty());
            assert(iter.stack@.last() == (IncrementalOctree::stem_ref(0), false, self.bounds));
            assert(self.up_pending(Seq::<Rise>::empty()) =~= Seq::<GrowingNode>::empty());
            assert(iter.remaining() =~= self.up(IncrementalOctree::stem_ref(0), self.bounds)
                + self.up_pending(Seq::<Rise>::empty()));
        }
        iter
    }
}

impl<'a> GrowingElements<'a> {
    /// The tree is sound, every entry of the stack names one of its nodes,
    /// and the count of points yielded belongs to the leaf on top of the
    /// stack.
    pub open spec fn wf(&self) -> bool {
        &&& self.tree.wf()
        &&& forall|i: int| 0 <= i < self.stack@.len() ==> self.tree.step_ok(#[trigger] self.stack@[i])
        &&& if self.stack@.len() > 0 && IncrementalOctree::is_block_ref(self.stack@.last().0) {
            self.point <= self.tree.fill@[IncrementalOctree::block_of(self.stack@.last().0)]
        } else {
            self.point == 0
        }
    }

    /// The nodes and points that the walk has still to yield, in order.
    pub open spec fn remaining(&self) -> Seq<GrowingElement> {
        self.tree.elements_pending(self.stack@).skip(self.point as int)
    }

    /// Yields the next node or point of the walk, or nothing once everything
    /// has been yielded.
    #[verifier::rlimit(40)]
    pub fn next(&mut self) -> (item: Option<GrowingElement>)
        requires
            old(self).wf(),
        ensures
            final(self).wf(),
            final(self).tree == old(self).tree,
            old(self).remaining().len() == 0 ==> item is None && final(self).remaining().len() == 0,
            old(self).remaining().len() > 0 ==> item == Some(old(self).remaining()[0])
                && final(self).remaining() == old(self).remaining().skip(1),
    {
        if self.stack.len() == 0 {
            return None;
        }
        let ghost before = self.stack@;
        let ghost rest = before.drop_last();
        let (r, cube) = self.stack[self.stack.len() - 1];
        proof {
            assert(before.last() == (r, cube));
            assert(self.tree.step_ok(before[before.len() - 1]));
        }
        if !r.is_leaf() {
            self.stack.pop();
            let stem: usize = r.node_block();
            let mut i: usize = 0;
            while i < 8
                invariant
                    0 <= i <= 8,
                    self.tree == old(self).tree,
                    self.point == 0,
                    self.tree.wf(),
                    stem < self.tree.stems(),
                    stem == IncrementalOctree::stem_of(r),
                    cube == self.tree.cube_of(stem as int),
                    forall|k: int|
                        0 <= k < self.stack@.len() ==> self.tree.step_ok(#[trigger] self.stack@[k]),
                    self.tree.elements_pending(self.stack@) == self.tree.elements_kids(
                        stem as int,
                        cube,
                        i as nat,
                    ) + self.tree.elements_pending(rest),
                decreases 8 - i,
            {
                let child = self.tree.nodes[8 * stem + i];
                let ghost prev = self.stack@;
                if !child.is_empty() {
                    proof {
                        self.tree.lemma_step_child(stem as int, cube, i as int);
                    }
                    self.stack.push((child, cube.child_cube(i)));
                    proof {
                        let walk = self.tree.elements(child, cube.child(i as int));
                        assert(self.stack@.drop_last() == prev);
                        assert(self.tree.elements_pending(self.stack@) == walk
                            + self.tree.elements_pending(prev));
                        assert(walk + (self.tree.elements_kids(stem as int, cube, i as nat)
                            + self.tree.elements_pending(rest)) =~= (walk
                            + self.tree.elements_kids(stem as int, cube, i as nat))
                            + self.tree.elements_pending(rest));
                    }
                }
                i += 1;
            }
            proof {
                assert(old(self).remaining() =~= seq![GrowingElement::Node { cube }]
                    + self.tree.elements_pending(self.stack@));
                self.lemma_cursor_at_rest();
            }
            return Some(GrowingElement::Node { cube });
        }
        let k: usize = IncrementalOctree::block_number(r);
        let n_points: usize = self.tree.fill[k];
        let ghost points = self.tree.leaf_elements(k as int);
        proof {
            assert(self.tree.elements_pending(before) == (points + seq![
                GrowingElement::Node { cube },
            ]) + self.tree.elements_pending(rest));
        }
        if self.point >= n_points {
            self.stack.pop();
            self.point = 0;
            proof {
                assert(self.stack@ == rest);
                assert(old(self).remaining() =~= seq![GrowingElement::Node { cube }]
                    + self.tree.elements_pending(rest));
                self.lemma_cursor_at_rest();
            }
            return Some(GrowingElement::Node { cube });
        }
        proof {
            assert(old(self).remaining()[0] == points[self.point as int]);
            assert(self.tree.fill@[k as int] <= self.tree.capacity);
        }
        let j = self.tree.slot_index(k, self.point);
        self.point += 1;
        proof {
            assert(self.remaining() =~= old(self).remaining().skip(1));
        }
        Some(GrowingElement::Point { point: self.tree.points[j] })
    }

    /// With no point yielded of the entry on top of the stack, everything
    /// that the stack stands for is still to come.
    proof fn lemma_cursor_at_rest(&self)
        requires
            self.point == 0,
        ensures
            self.remaining() == self.tree.elements_pending(self.stack@),
    {
        assert(self.tree.elements_pending(self.stack@).skip(0) =~= self.tree.elements_pending(
            self.stack@,
        ));
    }
}

} // verus!
