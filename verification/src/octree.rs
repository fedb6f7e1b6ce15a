//! The octree built in one pass over a fixed set of points.

use crate::geometry::{Cube, Point, Scalar};
use crate::iterators::subdivide::Subdivide;
use vstd::multiset::Multiset;
use vstd::prelude::*;

verus! {

/// The bit that marks a child reference as naming a leaf.
pub const LEAF_TAG: u32 = 0x8000_0000;

/// A branch: one child reference per octant.
#[derive(Clone, Copy, Debug, Default)]
pub struct StemNode {
    pub childs_idx: [u32; 8],
}

/// A leaf: the positions `begin..end` of the point permutation.
#[derive(Clone, Copy, Debug)]
pub struct LeafNode {
    pub begin: u32,
    pub end: u32,
}

/// An octree over a fixed set of points.
///
/// `points` keeps the points in the order they were given.  `indices` is a
/// permutation of their positions; every leaf owns a contiguous range of it.
#[derive(Debug)]
pub struct Octree {
    pub root: u32,
    pub stems: Vec<StemNode>,
    pub leafs: Vec<LeafNode>,
    pub indices: Vec<u32>,
    pub points: Vec<Point>,
    pub bounds: Cube,
}

/// The permutation with the entries at positions `a` and `b` exchanged.
pub open spec fn exchanged(ind: Seq<u32>, a: int, b: int) -> Seq<u32> {
    ind.update(a, ind[b]).update(b, ind[a])
}

/// What is left of a split with the cursors at `down` and `up`: the
/// permutation it ends with and the position it returns.  The lower cursor
/// passes points below the pivot, the upper cursor passes points at or above
/// it, and where both are stopped the two entries are exchanged.
pub open spec fn split_from(
    points: Seq<Point>,
    ind: Seq<u32>,
    axis: int,
    pivot: Scalar,
    begin: int,
    end: int,
    down: int,
    up: int,
) -> (Seq<u32>, int)
    decreases
            (if up + 1 - down > 0 {
                up + 1 - down
            } else {
                0
            }),
{
    if down > up {
        (ind, down)
    } else {
        let stop_down = !points[ind[down] as int].below(axis, pivot);
        let stop_up = points[ind[up] as int].below(axis, pivot);
        if stop_down && stop_up {
            split_from(points, exchanged(ind, down, up), axis, pivot, begin, end, down + 1, up - 1)
        } else {
            let next = if stop_down {
                down
            } else {
                down + 1
            };
            if !stop_down && next >= end {
                (ind, end)
            } else if stop_up {
                split_from(points, ind, axis, pivot, begin, end, next, up)
            } else if up <= begin {
                (ind, begin)
            } else {
                split_from(points, ind, axis, pivot, begin, end, next, up - 1)
            }
        }
    }
}

/// The permutation that a split of positions `begin..end` ends with, and the
/// position it returns.
pub open spec fn split_of(
    points: Seq<Point>,
    ind: Seq<u32>,
    axis: int,
    pivot: Scalar,
    begin: int,
    end: int,
) -> (Seq<u32>, int) {
    if begin >= end {
        (ind, begin)
    } else {
        split_from(points, ind, axis, pivot, begin, end, begin, end - 1)
    }
}

/// The permutation that the subdivision of positions `begin..end` around
/// the centre of `cube` ends with, and its nine delimiters: a split along x,
/// then one of each half along y, then one of each quarter along z.
pub open spec fn subdivision_of(
    points: Seq<Point>,
    ind: Seq<u32>,
    cube: Cube,
    begin: int,
    end: int,
) -> (Seq<u32>, Seq<int>) {
    let x = split_of(points, ind, 0, cube.pivot(0), begin, end);
    let y_low = split_of(points, x.0, 1, cube.pivot(1), begin, x.1);
    let y_high = split_of(points, y_low.0, 1, cube.pivot(1), x.1, end);
    let z_low_low = split_of(points, y_high.0, 2, cube.pivot(2), begin, y_low.1);
    let z_low_high = split_of(points, z_low_low.0, 2, cube.pivot(2), y_low.1, x.1);
    let z_high_low = split_of(points, z_low_high.0, 2, cube.pivot(2), x.1, y_high.1);
    let z_high_high = split_of(points, z_high_low.0, 2, cube.pivot(2), y_high.1, end);
    (
        z_high_high.0,
        seq![
            begin,
            z_low_low.1,
            y_low.1,
            z_low_high.1,
            x.1,
            z_high_low.1,
            y_high.1,
            z_high_high.1,
            end,
        ],
    )
}

impl Octree {
    /// The point that position `i` of the permutation names.
    pub open spec fn point_at(&self, i: int) -> Point {
        self.points@[self.indices@[i] as int]
    }

    /// The point numbers held at positions `begin..end`, without their order.
    pub open spec fn ids(&self, begin: int, end: int) -> Multiset<u32> {
        self.indices@.subrange(begin, end).to_multiset()
    }

    /// Positions `begin..end` exist and each names a point.
    pub open spec fn range_ok(&self, begin: int, end: int) -> bool {
        &&& 0 <= begin <= end <= self.indices@.len()
        &&& forall|i: int| begin <= i < end ==> (#[trigger] self.indices@[i]) < self.points@.len()
    }

    /// Everything but the permutation is the same in both trees.
    pub open spec fn same_but_indices(&self, other: &Octree) -> bool {
        &&& self.root == other.root
        &&& self.stems == other.stems
        &&& self.leafs == other.leafs
        &&& self.points == other.points
        &&& self.bounds == other.bounds
        &&& self.indices@.len() == other.indices@.len()
    }

    /// Both trees hold the same points and permutations of the same length.
    pub open spec fn same_points(&self, other: &Octree) -> bool {
        &&& self.points == other.points
        &&& self.indices@.len() == other.indices@.len()
    }

    /// The two permutations agree outside positions `begin..end`.
    pub open spec fn same_outside(&self, other: &Octree, begin: int, end: int) -> bool {
        forall|i: int|
            0 <= i < self.indices@.len() && !(begin <= i < end) ==> #[trigger] self.indices@[i]
                == other.indices@[i]
    }

    /// Whether position `i` holds a point on the lower side of the centre of
    /// `cube` along `axis`.
    pub open spec fn lower(&self, i: int, cube: Cube, axis: int) -> bool {
        self.point_at(i).below(axis, cube.pivot(axis))
    }

    /// Along `axis`, positions `lo..hi` hold the lower side before `bound` and
    /// the upper side from `bound` on.
    pub open spec fn parted(&self, lo: int, hi: int, cube: Cube, axis: int, bound: int) -> bool {
        forall|i: int| lo <= i < hi ==> (#[trigger] self.lower(i, cube, axis) == (i < bound))
    }

    /// The point that position `idx` of the permutation names.
    #[inline]
    pub fn get_point(&self, idx: u32) -> (p: &Point)
        requires
            idx < self.indices@.len(),
            self.indices@[idx as int] < self.points@.len(),
        ensures
            *p == self.point_at(idx as int),
    {
        &self.points[self.indices[idx as usize] as usize]
    }

    /// Exchanges the point numbers at two positions of the permutation.
    #[inline]
    pub fn swap_points(&mut self, idx_a: u32, idx_b: u32)
        requires
            idx_a < old(self).indices@.len(),
            idx_b < old(self).indices@.len(),
        ensures
            final(self).same_but_indices(old(self)),
            final(self).indices@ == old(self).indices@.update(
                idx_a as int,
                old(self).indices@[idx_b as int],
            ).update(idx_b as int, old(self).indices@[idx_a as int]),
    {
        let a: u32 = self.indices[idx_a as usize];
        let b: u32 = self.indices[idx_b as usize];
        self.indices[idx_a as usize] = b;
        self.indices[idx_b as usize] = a;
    }

    /// Rearranges positions `begin..end` so that every point whose coordinate
    /// along axis `DIM` lies below `pivot` comes before every point whose
    /// coordinate is at or above it, and returns the position where the second
    /// group starts.
    pub fn split<const DIM: usize>(&mut self, begin: u32, end: u32, pivot: Scalar) -> (mid: u32)
        requires
            DIM < 3,
            pivot.wf(),
            begin < end ==> old(self).range_ok(begin as int, end as int),
        ensures
            final(self).same_but_indices(old(self)),
            final(self).same_outside(old(self), begin as int, end as int),
            begin >= end ==> mid == begin && final(self).indices@ == old(self).indices@,
            begin <= end ==> begin <= mid <= end,
            begin < end ==> final(self).range_ok(begin as int, end as int),
            begin < end ==> final(self).ids(begin as int, end as int) == old(self).ids(
                begin as int,
                end as int,
            ),
            forall|i: int|
                begin <= i < mid ==> (#[trigger] final(self).point_at(i)).below(DIM as int, pivot),
            forall|i: int|
                mid <= i < end ==> !(#[trigger] final(self).point_at(i)).below(DIM as int, pivot),
            (final(self).indices@, mid as int) == split_of(
                old(self).points@,
                old(self).indices@,
                DIM as int,
                pivot,
                begin as int,
                end as int,
            ),
    {
        if begin >= end {
            return begin;
        }
        let mut idx_down: u32 = begin;
        let mut idx_up: u32 = end - 1;

        while idx_down <= idx_up
            invariant
                DIM < 3,
                pivot.wf(),
                begin < end,
                begin <= idx_down <= idx_up + 1 <= end,
                self.same_but_indices(old(self)),
                self.same_outside(old(self), begin as int, end as int),
                self.range_ok(begin as int, end as int),
                self.ids(begin as int, end as int) == old(self).ids(begin as int, end as int),
                forall|i: int|
                    begin <= i < idx_down ==> (#[trigger] self.point_at(i)).below(DIM as int, pivot),
                forall|i: int|
                    idx_up < i < end ==> !(#[trigger] self.point_at(i)).below(DIM as int, pivot),
                split_from(
                    self.points@,
                    self.indices@,
                    DIM as int,
                    pivot,
                    begin as int,
                    end as int,
                    idx_down as int,
                    idx_up as int,
                ) == split_of(
                    old(self).points@,
                    old(self).indices@,
                    DIM as int,
                    pivot,
                    begin as int,
                    end as int,
                ),
            decreases idx_up + 1 - idx_down,
        {
            let ghost prev = *self;
            assert(prev.point_at(idx_down as int) == prev.points@[prev.indices@[idx_down as int] as int]);
            assert(prev.point_at(idx_up as int) == prev.points@[prev.indices@[idx_up as int] as int]);
            let error_down = !self.get_point(idx_down).is_below(DIM, pivot);
            let error_up = self.get_point(idx_up).is_below(DIM, pivot);

            if error_down && error_up {
                self.swap_points(idx_down, idx_up);
                proof {
                    assert(self.indices@ == exchanged(
                        prev.indices@,
                        idx_down as int,
                        idx_up as int,
                    ));
                    lemma_swap_in_range(
                        prev.indices@,
                        begin as int,
                        end as int,
                        idx_down as int,
                        idx_up as int,
                    );
                    assert(self.point_at(idx_down as int) == prev.point_at(idx_up as int));
                    assert(self.point_at(idx_up as int) == prev.point_at(idx_down as int));
                    assert forall|i: int| 0 <= i < self.indices@.len() && i != idx_down && i
                        != idx_up implies #[trigger] self.point_at(i) == prev.point_at(i) by {
                        assert(self.indices@[i] == prev.indices@[i]);
                    }
                    assert forall|i: int| begin <= i < end implies (#[trigger] self.indices@[i])
                        < self.points@.len() by {
                        if i == idx_down {
                            assert(self.indices@[i] == prev.indices@[idx_up as int]);
                        } else if i == idx_up {
                            assert(self.indices@[i] == prev.indices@[idx_down as int]);
                        } else {
                            assert(self.indices@[i] == prev.indices@[i]);
                        }
                    }
                }
                idx_down += 1;
                idx_up -= 1;
            } else {
                if !error_down {
                    idx_down += 1;
                    if idx_down >= end {
                        return end;
                    }
                }
                if !error_up {
                    if idx_up <= begin {
                        return begin;
                    }
                    idx_up -= 1;
                }
            }
        }

        idx_down
    }
}

impl Octree {
    /// Splits positions `begin..end` into the eight octants of `cube`: first
    /// along x, then each half along y, then each quarter along z.  The nine
    /// delimiters returned bound the ranges of octants 0 to 7 in order.
    pub fn subdivide(&mut self, begin: u32, end: u32, cube: Cube) -> (sub: Subdivide)
        requires
            old(self).range_ok(begin as int, end as int),
            cube.wf(),
        ensures
            final(self).same_but_indices(old(self)),
            final(self).same_outside(old(self), begin as int, end as int),
            final(self).range_ok(begin as int, end as int),
            final(self).ids(begin as int, end as int) == old(self).ids(begin as int, end as int),
            sub.current == 0,
            sub.cube == cube,
            sub.delimiter[0] == begin,
            sub.delimiter[8] == end,
            forall|o: int| 0 <= o < 8 ==> sub.delimiter[o] <= #[trigger] sub.delimiter[o + 1],
            forall|o: int, i: int|
                #![trigger sub.delimiter[o], final(self).point_at(i)]
                0 <= o < 8 && sub.delimiter[o] <= i < sub.delimiter[o + 1] ==> cube.octant_of(
                    final(self).point_at(i),
                ) == o,
            final(self).indices@ == subdivision_of(
                old(self).points@,
                old(self).indices@,
                cube,
                begin as int,
                end as int,
            ).0,
            forall|o: int|
                0 <= o <= 8 ==> #[trigger] sub.delimiter[o] == subdivision_of(
                    old(self).points@,
                    old(self).indices@,
                    cube,
                    begin as int,
                    end as int,
                ).1[o],
    {
        let ghost b = begin as int;
        let ghost e = end as int;
        let ghost orig = *self;
        let px = cube.pivot_at(0);
        let py = cube.pivot_at(1);
        let pz = cube.pivot_at(2);

        let pivot_x = self.split::<0>(begin, end, px);
        let ghost s1 = *self;
        assert(s1.parted(b, e, cube, 0, pivot_x as int));

        let pivot_y_low = self.split::<1>(begin, pivot_x, py);
        let ghost s2 = *self;
        proof {
            lemma_split_frame(&orig, &s1, &s2, b, pivot_x as int, b, e);
            lemma_split_keeps(&s1, &s2, b, pivot_x as int, b, e, cube, 0, pivot_x as int);
            assert(s2.parted(b, pivot_x as int, cube, 1, pivot_y_low as int));
        }

        let pivot_y_high = self.split::<1>(pivot_x, end, py);
        let ghost s3 = *self;
        proof {
            lemma_split_frame(&orig, &s2, &s3, pivot_x as int, e, b, e);
            lemma_split_keeps(&s2, &s3, pivot_x as int, e, b, e, cube, 0, pivot_x as int);
            lemma_split_keeps(
                &s2,
                &s3,
                pivot_x as int,
                e,
                b,
                pivot_x as int,
                cube,
                1,
                pivot_y_low as int,
            );
            assert(s3.parted(pivot_x as int, e, cube, 1, pivot_y_high as int));
        }

        let pivot_z_low_low = self.split::<2>(begin, pivot_y_low, pz);
        let ghost s4 = *self;
        proof {
            let (sb, se) = (b, pivot_y_low as int);
            lemma_split_frame(&orig, &s3, &s4, sb, se, b, e);
            lemma_split_keeps(&s3, &s4, sb, se, b, e, cube, 0, pivot_x as int);
            lemma_split_keeps(&s3, &s4, sb, se, b, pivot_x as int, cube, 1, pivot_y_low as int);
            lemma_split_keeps(&s3, &s4, sb, se, pivot_x as int, e, cube, 1, pivot_y_high as int);
            assert(s4.parted(b, pivot_y_low as int, cube, 2, pivot_z_low_low as int));
        }

        let pivot_z_low_high = self.split::<2>(pivot_y_low, pivot_x, pz);
        let ghost s5 = *self;
        proof {
            let (sb, se) = (pivot_y_low as int, pivot_x as int);
            lemma_split_frame(&orig, &s4, &s5, sb, se, b, e);
            lemma_split_keeps(&s4, &s5, sb, se, b, e, cube, 0, pivot_x as int);
            lemma_split_keeps(&s4, &s5, sb, se, b, pivot_x as int, cube, 1, pivot_y_low as int);
            lemma_split_keeps(&s4, &s5, sb, se, pivot_x as int, e, cube, 1, pivot_y_high as int);
            lemma_split_keeps(
                &s4,
                &s5,
                sb,
                se,
                b,
                pivot_y_low as int,
                cube,
                2,
                pivot_z_low_low as int,
            );
            assert(s5.parted(pivot_y_low as int, pivot_x as int, cube, 2, pivot_z_low_high as int));
        }

        let pivot_z_high_low = self.split::<2>(pivot_x, pivot_y_high, pz);
        let ghost s6 = *self;
        proof {
            let (sb, se) = (pivot_x as int, pivot_y_high as int);
            lemma_split_frame(&orig, &s5, &s6, sb, se, b, e);
            lemma_split_keeps(&s5, &s6, sb, se, b, e, cube, 0, pivot_x as int);
            lemma_split_keeps(&s5, &s6, sb, se, b, pivot_x as int, cube, 1, pivot_y_low as int);
            lemma_split_keeps(&s5, &s6, sb, se, pivot_x as int, e, cube, 1, pivot_y_high as int);
            lemma_split_keeps(
                &s5,
                &s6,
                sb,
                se,
                b,
                pivot_y_low as int,
                cube,
                2,
                pivot_z_low_low as int,
            );
            lemma_split_keeps(
                &s5,
                &s6,
                sb,
                se,
                pivot_y_low as int,
                pivot_x as int,
                cube,
                2,
                pivot_z_low_high as int,
            );
            assert(s6.parted(pivot_x as int, pivot_y_high as int, cube, 2, pivot_z_high_low as int));
        }

        let pivot_z_high_high = self.split::<2>(pivot_y_high, end, pz);
        let ghost s7 = *self;
        proof {
            let (sb, se) = (pivot_y_high as int, e);
            lemma_split_frame(&orig, &s6, &s7, sb, se, b, e);
            lemma_split_keeps(&s6, &s7, sb, se, b, e, cube, 0, pivot_x as int);
            lemma_split_keeps(&s6, &s7, sb, se, b, pivot_x as int, cube, 1, pivot_y_low as int);
            lemma_split_keeps(&s6, &s7, sb, se, pivot_x as int, e, cube, 1, pivot_y_high as int);
            lemma_split_keeps(
                &s6,
                &s7,
                sb,
                se,
                b,
                pivot_y_low as int,
                cube,
                2,
                pivot_z_low_low as int,
            );
            lemma_split_keeps(
                &s6,
                &s7,
                sb,
                se,
                pivot_y_low as int,
                pivot_x as int,
                cube,
                2,
                pivot_z_low_high as int,
            );
            lemma_split_keeps(
                &s6,
                &s7,
                sb,
                se,
                pivot_x as int,
                pivot_y_high as int,
                cube,
                2,
                pivot_z_high_low as int,
            );
            assert(s7.parted(pivot_y_high as int, e, cube, 2, pivot_z_high_high as int));
        }

        let sub = Subdivide {
            current: 0,
            delimiter: [
                begin,
                pivot_z_low_low,
                pivot_y_low,
                pivot_z_low_high,
                pivot_x,
                pivot_z_high_low,
                pivot_y_high,
                pivot_z_high_high,
                end,
            ],
            cube,
        };
        proof {
            assert forall|o: int, i: int|
                #![trigger sub.delimiter[o], self.point_at(i)]
                0 <= o < 8 && sub.delimiter[o] <= i < sub.delimiter[o + 1] implies cube.octant_of(
                self.point_at(i),
            ) == o by {
                assert(s7.lower(i, cube, 0) == (i < pivot_x));
                assert(s7.lower(i, cube, 1) == (if i < pivot_x {
                    i < pivot_y_low
                } else {
                    i < pivot_y_high
                }));
                assert(s7.lower(i, cube, 2) == (if i < pivot_y_low {
                    i < pivot_z_low_low
                } else if i < pivot_x {
                    i < pivot_z_low_high
                } else if i < pivot_y_high {
                    i < pivot_z_high_low
                } else {
                    i < pivot_z_high_high
                }));
            }
        }
        sub
    }
}

/// What a split of positions `sb..se` leaves as it was in an enclosing range
/// `lo..hi`: the range still names points only, holds the same point numbers,
/// and nothing outside it has moved since `orig`.
pub proof fn lemma_split_frame(
    orig: &Octree,
    before: &Octree,
    after: &Octree,
    sb: int,
    se: int,
    lo: int,
    hi: int,
)
    requires
        lo <= sb <= se <= hi,
        before.range_ok(lo, hi),
        before.same_points(orig),
        before.same_outside(orig, lo, hi),
        before.ids(lo, hi) == orig.ids(lo, hi),
        after.same_points(before),
        after.same_outside(before, sb, se),
        sb < se ==> after.range_ok(sb, se),
        sb < se ==> after.ids(sb, se) == before.ids(sb, se),
        sb >= se ==> after.indices@ == before.indices@,
    ensures
        after.range_ok(lo, hi),
        after.same_points(orig),
        after.same_outside(orig, lo, hi),
        after.ids(lo, hi) == orig.ids(lo, hi),
{
    if sb < se {
        let x = before.indices@;
        let y = after.indices@;
        assert(x.subrange(lo, hi) =~= x.subrange(lo, sb) + x.subrange(sb, se) + x.subrange(se, hi));
        assert(y.subrange(lo, hi) =~= y.subrange(lo, sb) + y.subrange(sb, se) + y.subrange(se, hi));
        assert(x.subrange(lo, sb) =~= y.subrange(lo, sb));
        assert(x.subrange(se, hi) =~= y.subrange(se, hi));
        vstd::seq_lib::lemma_multiset_commutative(x.subrange(lo, sb), x.subrange(sb, se));
        vstd::seq_lib::lemma_multiset_commutative(
            x.subrange(lo, sb) + x.subrange(sb, se),
            x.subrange(se, hi),
        );
        vstd::seq_lib::lemma_multiset_commutative(y.subrange(lo, sb), y.subrange(sb, se));
        vstd::seq_lib::lemma_multiset_commutative(
            y.subrange(lo, sb) + y.subrange(sb, se),
            y.subrange(se, hi),
        );
        assert forall|i: int| lo <= i < hi implies (#[trigger] after.indices@[i])
            < after.points@.len() by {
            if !(sb <= i < se) {
                assert(after.indices@[i] == before.indices@[i]);
            }
        }
    }
}

/// Every point number found at positions `sb..se` after a rearrangement of
/// that range was at one of these positions before.
pub proof fn lemma_permuted(before: &Octree, after: &Octree, sb: int, se: int, i: int) -> (j: int)
    requires
        0 <= sb <= i < se <= before.indices@.len(),
        after.indices@.len() == before.indices@.len(),
        after.ids(sb, se) == before.ids(sb, se),
    ensures
        sb <= j < se,
        after.indices@[i] == before.indices@[j],
{
    let x = before.indices@.subrange(sb, se);
    let y = after.indices@.subrange(sb, se);
    let v = after.indices@[i];
    assert(y[i - sb] == v);
    assert(y.contains(v));
    vstd::seq_lib::to_multiset_contains(y, v);
    vstd::seq_lib::to_multiset_contains(x, v);
    assert(x.contains(v));
    let k = choose|k: int| 0 <= k < x.len() && x[k] == v;
    sb + k
}

/// A split of positions `sb..se` that lies on one side of `bound`, or outside
/// `lo..hi` altogether, keeps `lo..hi` parted at `bound`.
pub proof fn lemma_split_keeps(
    before: &Octree,
    after: &Octree,
    sb: int,
    se: int,
    lo: int,
    hi: int,
    cube: Cube,
    axis: int,
    bound: int,
)
    requires
        0 <= sb <= se <= before.indices@.len(),
        (lo <= sb && se <= hi && (se <= bound || bound <= sb)) || se <= lo || hi <= sb,
        0 <= lo <= hi <= before.indices@.len(),
        before.parted(lo, hi, cube, axis, bound),
        after.same_but_indices(before),
        after.same_outside(before, sb, se),
        sb < se ==> after.ids(sb, se) == before.ids(sb, se),
        sb >= se ==> after.indices@ == before.indices@,
    ensures
        after.parted(lo, hi, cube, axis, bound),
{
    assert forall|i: int| lo <= i < hi implies (#[trigger] after.lower(i, cube, axis) == (i
        < bound)) by {
        if sb <= i < se {
            let j = lemma_permuted(before, after, sb, se, i);
            assert(after.point_at(i) == before.point_at(j));
            assert(before.lower(j, cube, axis) == (j < bound));
        } else {
            assert(after.indices@[i] == before.indices@[i]);
            assert(after.point_at(i) == before.point_at(i));
            assert(before.lower(i, cube, axis) == (i < bound));
        }
    }
}

/// Exchanging two positions inside `begin..end` keeps the multiset of that range.
pub proof fn lemma_swap_in_range(s: Seq<u32>, begin: int, end: int, a: int, b: int)
    requires
        0 <= begin <= a < end <= s.len(),
        begin <= b < end,
    ensures
        s.update(a, s[b]).update(b, s[a]).subrange(begin, end).to_multiset() == s.subrange(
            begin,
            end,
        ).to_multiset(),
{
    broadcast use {
        vstd::seq_lib::to_multiset_update,
        vstd::multiset::group_multiset_axioms,
        vstd::multiset::group_multiset_properties,
    };

    let r = s.subrange(begin, end);
    let t = s.update(a, s[b]).update(b, s[a]).subrange(begin, end);
    let u = r.update(a - begin, r[b - begin]);
    assert(t =~= u.update(b - begin, r[a - begin]));
    assert(u[b - begin] == r[b - begin]);
    assert(u.to_multiset() == r.to_multiset().insert(r[b - begin]).remove(r[a - begin]));
    assert(t.to_multiset() == u.to_multiset().insert(r[a - begin]).remove(u[b - begin]));
    let ra = r[a - begin];
    let rb = r[b - begin];
    let m0 = r.to_multiset();
    let m1 = m0.insert(rb);
    let m2 = m1.remove(ra);
    let m3 = m2.insert(ra);
    let m4 = m3.remove(rb);
    assert(m0.count(ra) > 0 && m0.count(rb) > 0) by {
        assert(r[a - begin] == ra && r[b - begin] == rb);
        assert(r.contains(ra) && r.contains(rb));
        vstd::seq_lib::to_multiset_contains(r, ra);
        vstd::seq_lib::to_multiset_contains(r, rb);
    }
    assert forall|v: u32| m4.count(v) == m0.count(v) by {
        assert(m1.count(v) == m0.count(v) + if v == rb { 1int } else { 0int });
        assert(m1.count(ra) >= 1);
        assert(m2.count(v) == m1.count(v) - if v == ra { 1int } else { 0int });
        assert(m3.count(v) == m2.count(v) + if v == ra { 1int } else { 0int });
        assert(m3.count(rb) >= 1);
        assert(m4.count(v) == m3.count(v) - if v == rb { 1int } else { 0int });
    }
    assert(t.to_multiset() =~= r.to_multiset());
}

} // verus!
