//! The octree that grows one point at a time.
//!
//! Stems and leaves live in two arenas and are named by tagged indices.  A
//! leaf is a block of `capacity` slots of which the first `fill` hold points;
//! a leaf that is full when one more point arrives gives way to a stem, and
//! its points find their places below that stem.

use crate::geometry::{cube_at, follows, octants_only, Cube, Point, MAX_DEPTH};
use crate::types::Index;
use vstd::multiset::Multiset;
use vstd::prelude::*;

verus! {

/// The capacity of the leaves of a tree made by `IncrementalOctree::default`.
pub const DEFAULT_CAPACITY: usize = 5;

/// Why a point was not added.
#[derive(Clone, Copy, Debug, PartialEq, Eq, Structural)]
pub enum AddError {
    /// The point lies outside the cube of the tree.
    OutOfBounds,
    /// The leaf for the point is full of points at the very same place: no
    /// subdivision, however deep, would part them.
    MaxDepthExceeded,
    /// The arenas have grown so large that the nodes which the point may ask
    /// for could not all be named by a reference.
    Full,
}

/// An octree over a fixed cube that grows by one point at a time.
pub struct IncrementalOctree {
    /// The cube of the root.
    pub bounds: Cube,
    /// The number of points that a leaf holds at most.
    pub capacity: usize,
    /// The child references of the stems, eight for each; stem 0 is the root.
    pub nodes: Vec<usize>,
    /// For each stem, the number of points below it.
    pub counts: Vec<usize>,
    /// The slots of the leaves, `capacity` for each.
    pub points: Vec<Point>,
    /// For each leaf, the number of its slots in use; 0 once the leaf has
    /// given way to a stem.
    pub fill: Vec<usize>,
    /// For each stem, the octants that lead to it from the root.
    pub paths: Ghost<Seq<Seq<int>>>,
}

impl IncrementalOctree {
    /// The value of the bit that tells a leaf reference from a stem reference.
    pub open spec fn tag() -> int {
        (usize::MAX / 2 + 1) as int
    }

    /// Whether `r` is the reference of a child that is not there.
    pub open spec fn is_empty_ref(r: usize) -> bool {
        r == 2 * Self::tag() - 1
    }

    /// Whether `r` names a leaf.
    pub open spec fn is_block_ref(r: usize) -> bool {
        Self::tag() <= r < 2 * Self::tag() - 1
    }

    /// Whether `r` names a stem.
    pub open spec fn is_stem_ref(r: usize) -> bool {
        r < Self::tag()
    }

    /// The leaf that a leaf reference names.
    pub open spec fn block_of(r: usize) -> int {
        r - Self::tag()
    }

    /// The stem that a stem reference names.
    pub open spec fn stem_of(r: usize) -> int {
        r as int / 8
    }

    /// The number of stems.
    pub open spec fn stems(&self) -> int {
        self.counts@.len() as int
    }

    /// The number of leaves, those that have given way to a stem included.
    pub open spec fn blocks(&self) -> int {
        self.fill@.len() as int
    }

    /// Child `o` of stem `s`.
    pub open spec fn slot(&self, s: int, o: int) -> usize {
        self.nodes@[8 * s + o]
    }

    /// Point `i` of leaf `k`.
    pub open spec fn at(&self, k: int, i: int) -> Point {
        self.points@[self.capacity * k + i]
    }

    /// The points that leaf `k` holds, in the order they came.
    pub open spec fn held(&self, k: int) -> Seq<Point> {
        Seq::new(self.fill@[k] as nat, |i: int| self.at(k, i))
    }

    /// The number of points under a child reference.
    pub open spec fn weight(&self, r: usize) -> int {
        if Self::is_empty_ref(r) {
            0
        } else if Self::is_block_ref(r) {
            self.fill@[Self::block_of(r)] as int
        } else {
            self.counts@[Self::stem_of(r)] as int
        }
    }

    /// The number of points under the eight children of stem `s`.
    pub open spec fn weight_below(&self, s: int) -> int {
        self.weight(self.slot(s, 0)) + self.weight(self.slot(s, 1)) + self.weight(self.slot(s, 2))
            + self.weight(self.slot(s, 3)) + self.weight(self.slot(s, 4)) + self.weight(
            self.slot(s, 5),
        ) + self.weight(self.slot(s, 6)) + self.weight(self.slot(s, 7))
    }

    /// The cube of stem `s`.
    pub open spec fn cube_of(&self, s: int) -> Cube {
        cube_at(self.bounds, self.paths@[s])
    }

    /// Whether `q` lies in the cube of the tree and `path` is the way it
    /// takes down from the root.
    pub open spec fn placed(&self, q: Point, path: Seq<int>) -> bool {
        self.bounds.holds(q) && follows(self.bounds, q, path)
    }

    /// Child `o` of stem `s` is sound: it is empty; or a leaf, not older than
    /// leaf `k_lo`, that holds between one point and `capacity` points, each
    /// of which belongs into octant `o` of the stem; or a stem stored after
    /// `s`, one octant further down, with more points below it than a leaf
    /// could hold.
    pub open spec fn slot_ok(&self, s: int, o: int, k_lo: int) -> bool {
        let r = self.slot(s, o);
        ||| Self::is_empty_ref(r)
        ||| {
            &&& Self::is_block_ref(r)
            &&& k_lo <= Self::block_of(r) < self.blocks()
            &&& 1 <= self.fill@[Self::block_of(r)] <= self.capacity
            &&& forall|i: int|
                0 <= i < self.fill@[Self::block_of(r)] ==> self.placed(
                    #[trigger] self.at(Self::block_of(r), i),
                    self.paths@[s].push(o),
                )
        }
        ||| {
            &&& Self::is_stem_ref(r)
            &&& r % 8 == 0
            &&& s < Self::stem_of(r) < self.stems()
            &&& self.paths@[Self::stem_of(r)] == self.paths@[s].push(o)
            &&& self.counts@[Self::stem_of(r)] > self.capacity
        }
    }

    /// The arenas have the sizes that the numbers of stems and leaves ask
    /// for, and every stem and leaf can be named by a reference.
    pub open spec fn sized(&self) -> bool {
        &&& self.capacity >= 1
        &&& self.nodes@.len() == 8 * self.stems()
        &&& self.points@.len() == self.capacity * self.blocks()
        &&& self.paths@.len() == self.stems()
        &&& self.bounds.wf()
        &&& self.bounds.den == 1
        &&& self.bounds.size < 0x1_0000_0000
        &&& 8 * self.stems() < Self::tag() - 1
        &&& self.blocks() < Self::tag() - 1
        &&& forall|k: int| 0 <= k < self.blocks() ==> #[trigger] self.fill@[k] <= self.capacity
    }

    /// No two children of the stems `top..end` are the same node.
    #[verifier::opaque]
    pub open spec fn distinct(&self, top: int, end: int) -> bool {
        forall|s1: int, o1: int, s2: int, o2: int|
            top <= s1 < end && 0 <= o1 < 8 && top <= s2 < end && 0 <= o2 < 8 && (s1 != s2 || o1
                != o2) && !Self::is_empty_ref(#[trigger] self.slot(s1, o1)) ==> self.slot(s1, o1)
                != #[trigger] self.slot(s2, o2)
    }

    /// The stems `top..end`, with the leaves from `k_lo` on, are sound: every
    /// child is, no two children are the same node, every stem counts the
    /// points below it, and no stem lies deeper than the tree may go.
    pub open spec fn region_wf(&self, top: int, end: int, k_lo: int) -> bool {
        &&& self.sized()
        &&& 0 <= top <= end <= self.stems()
        &&& 0 <= k_lo <= self.blocks()
        &&& forall|s: int|
            top <= s < end ==> (#[trigger] self.paths@[s]).len() < MAX_DEPTH && octants_only(
                self.paths@[s],
            )
        &&& forall|s: int, o: int| top <= s < end && 0 <= o < 8 ==> #[trigger] self.slot_ok(s, o, k_lo)
        &&& self.distinct(top, end)
        &&& forall|s: int| top <= s < end ==> (#[trigger] self.counts@[s]) == self.weight_below(s)
    }

    /// The tree is sound.
    pub open spec fn wf(&self) -> bool {
        &&& self.region_wf(0, self.stems(), 0)
        &&& self.stems() >= 1
        &&& self.paths@[0] == Seq::<int>::empty()
        &&& self.capacity < usize::MAX
    }

    /// The number of points added.
    pub open spec fn len_spec(&self) -> nat {
        self.counts@[0] as nat
    }

    /// An empty tree over the cube with centre `center` and edge `size`,
    /// whose leaves hold up to `capacity` points.
    pub fn with_capacity(center: Point, size: u32, capacity: usize) -> (tree: IncrementalOctree)
        requires
            1 <= capacity < usize::MAX,
        ensures
            tree.wf(),
            tree.bounds == Cube::new_spec(center, size),
            tree.capacity == capacity,
            tree.len_spec() == 0,
            tree.contents() == Multiset::<Point>::empty(),
            tree.lines() == crate::lines::lined_stem_of(
                Seq::<Point>::empty(),
                tree.bounds,
                MAX_DEPTH as nat,
                capacity as nat,
            ),
            tree.stems() == 1,
            tree.blocks() == 0,
    {
        proof {
            reveal(IncrementalOctree::distinct);
        }
        let mut nodes: Vec<usize> = Vec::new();
        let mut o: usize = 0;
        while o < 8
            invariant
                o <= 8,
                nodes@.len() == o,
                forall|i: int| 0 <= i < o ==> Self::is_empty_ref(#[trigger] nodes@[i]),
            decreases 8 - o,
        {
            nodes.push(usize::empty());
            o += 1;
        }
        let mut counts: Vec<usize> = Vec::new();
        counts.push(0);
        let paths: Ghost<Seq<Seq<int>>> = Ghost(Seq::empty().push(Seq::empty()));
        let tree = IncrementalOctree {
            bounds: Cube::new(center, size),
            capacity,
            nodes,
            counts,
            points: Vec::new(),
            fill: Vec::new(),
            paths,
        };
        proof {
            assert(tree.capacity * 0 == 0);
            assert(octants_only(tree.paths@[0]));
            assert forall|s: int, p: int| 0 <= s < tree.stems() && 0 <= p < 8 implies #[trigger] tree.slot_ok(
                s,
                p,
                0,
            ) by {
                assert(Self::is_empty_ref(tree.nodes@[8 * s + p]));
            }
            assert forall|s: int| 0 <= s < tree.stems() implies (#[trigger] tree.counts@[s])
                == tree.weight_below(s) by {
                assert(Self::is_empty_ref(tree.slot(0, 0)) && Self::is_empty_ref(tree.slot(0, 1))
                    && Self::is_empty_ref(tree.slot(0, 2)) && Self::is_empty_ref(tree.slot(0, 3))
                    && Self::is_empty_ref(tree.slot(0, 4)) && Self::is_empty_ref(tree.slot(0, 5))
                    && Self::is_empty_ref(tree.slot(0, 6)) && Self::is_empty_ref(tree.slot(0, 7)));
            }
            assert forall|s1: int, o1: int, s2: int, o2: int|
                0 <= s1 < tree.stems() && 0 <= o1 < 8 && 0 <= s2 < tree.stems() && 0 <= o2 < 8 && (
                s1 != s2 || o1 != o2) && !Self::is_empty_ref(
                    #[trigger] tree.slot(s1, o1),
                ) implies tree.slot(s1, o1) != #[trigger] tree.slot(s2, o2) by {
                assert(Self::is_empty_ref(tree.nodes@[8 * s1 + o1]));
            }
            crate::insert::lemma_new_stem_lines(&tree, 0, tree.bounds, MAX_DEPTH as nat);
            assert(tree.contents_of(0) =~= Multiset::<Point>::empty()) by {
                broadcast use vstd::multiset::group_multiset_axioms;

                assert forall|o: int| 0 <= o < 8 implies #[trigger] tree.contents_under(0, o)
                    =~= Multiset::<Point>::empty() by {
                    assert(Self::is_empty_ref(tree.slot(0, o)));
                }
            }
        }
        tree
    }

    /// An empty tree over the cube with centre `center` and edge `size`,
    /// whose leaves hold up to `DEFAULT_CAPACITY` points.
    pub fn default(center: Point, size: u32) -> (tree: IncrementalOctree)
        ensures
            tree.wf(),
            tree.bounds == Cube::new_spec(center, size),
            tree.capacity == DEFAULT_CAPACITY,
            tree.len_spec() == 0,
            tree.contents() == Multiset::<Point>::empty(),
            tree.lines() == crate::lines::lined_stem_of(
                Seq::<Point>::empty(),
                tree.bounds,
                MAX_DEPTH as nat,
                DEFAULT_CAPACITY as nat,
            ),
    {
        Self::with_capacity(center, size, DEFAULT_CAPACITY)
    }

    /// The number of points added.
    pub fn len(&self) -> (n: usize)
        requires
            self.wf(),
        ensures
            n == self.len_spec(),
    {
        self.counts[0]
    }
}

} // verus!
