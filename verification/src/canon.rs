//! The shape of a growing tree: it depends on the points that the tree
//! holds, not on the order in which they came.

use crate::geometry::{Cube, Point, MAX_DEPTH};
use crate::incremental::IncrementalOctree;
use crate::insert::{lemma_contents_placed, lemma_count_is_contents, lemma_follows_prefix};
use vstd::multiset::Multiset;
use vstd::prelude::*;

verus! {

/// A growing tree as a mathematical value: an empty child, a leaf with its
/// points, without their order, or a stem with its eight children.
pub ghost enum Shape {
    Empty,
    Leaf { points: Multiset<Point> },
    Stem { children: Seq<Shape> },
}

/// The test "the point falls into octant `o` of `cube`".
pub open spec fn falls_into(cube: Cube, o: int) -> spec_fn(Point) -> bool {
    |p: Point| cube.octant_of(p) == o
}

/// The tree for the points `points` in a cube with `levels` levels left
/// below it: nothing for no point, a leaf for up to `capacity` points or
/// where no level is left, else a stem.
pub open spec fn shape_of(points: Multiset<Point>, cube: Cube, levels: nat, capacity: nat) -> Shape
    decreases levels, 1nat,
{
    if points.len() == 0 {
        Shape::Empty
    } else if points.len() <= capacity || levels == 0 {
        Shape::Leaf { points }
    } else {
        stem_of(points, cube, levels, capacity)
    }
}

/// The stem over the points `points` in `cube`: child `o` is the tree for the
/// points that fall into octant `o`, one level further down.
pub open spec fn stem_of(points: Multiset<Point>, cube: Cube, levels: nat, capacity: nat) -> Shape
    decreases levels, 0nat,
{
    Shape::Stem {
        children: Seq::new(
            8,
            |o: int|
                if levels > 0 {
                    shape_of(
                        points.filter(falls_into(cube, o)),
                        cube.child(o),
                        (levels - 1) as nat,
                        capacity,
                    )
                } else {
                    Shape::Empty
                },
        ),
    }
}

impl IncrementalOctree {
    /// The tree under child `o` of stem `s`, as a mathematical value.
    pub open spec fn shape_under(&self, s: int, o: int) -> Shape
        decreases self.stems() - s, 0nat,
    {
        let r = self.slot(s, o);
        if Self::is_block_ref(r) && 0 <= Self::block_of(r) < self.blocks() {
            Shape::Leaf { points: self.held(Self::block_of(r)).to_multiset() }
        } else if Self::is_stem_ref(r) && s < Self::stem_of(r) < self.stems() {
            self.shape_at(Self::stem_of(r))
        } else {
            Shape::Empty
        }
    }

    /// The tree under stem `s`, as a mathematical value.
    pub open spec fn shape_at(&self, s: int) -> Shape
        decreases self.stems() - s, 1nat,
    {
        Shape::Stem {
            children: seq![
                self.shape_under(s, 0),
                self.shape_under(s, 1),
                self.shape_under(s, 2),
                self.shape_under(s, 3),
                self.shape_under(s, 4),
                self.shape_under(s, 5),
                self.shape_under(s, 6),
                self.shape_under(s, 7),
            ],
        }
    }

    /// The tree, as a mathematical value.
    pub open spec fn shape(&self) -> Shape {
        self.shape_at(0)
    }
}

/// The points under a child of a stem are the points under the stem that
/// fall into the octant of the child.
pub proof fn lemma_contents_by_octant(t: &IncrementalOctree, s: int, o: int)
    requires
        t.wf(),
        0 <= s < t.stems(),
        0 <= o < 8,
    ensures
        t.contents_under(s, o) == t.contents_of(s).filter(falls_into(t.cube_of(s), o)),
{
    broadcast use vstd::multiset::group_multiset_axioms;

    let f = falls_into(t.cube_of(s), o);
    let whole = t.contents_of(s);
    assert forall|p: Point| t.contents_under(s, o).count(p) == whole.filter(f).count(p) by {
        assert forall|o2: int| 0 <= o2 < 8 && t.contents_under(s, o2).count(p)
            > 0 implies t.cube_of(s).octant_of(p) == o2 by {
            lemma_contents_placed(t, 0, 0, s, o2, p);
            lemma_follows_prefix(t.bounds, p, t.paths@[s], o2);
        }
        let at = t.cube_of(s).octant_of(p);
        if 0 <= at < 8 {
            crate::insert::lemma_count_of_eight(
                Seq::new(8, |j: int| t.contents_under(s, j)),
                at,
                p,
            );
        } else {
            crate::insert::lemma_count_of_eight(
                Seq::new(8, |j: int| t.contents_under(s, j)),
                0,
                p,
            );
        }
    }
    assert(t.contents_under(s, o) =~= whole.filter(f));
}

/// The shape of a sound growing tree below a stem is the shape that the
/// points below the stem ask for.
pub proof fn lemma_shape_at(t: &IncrementalOctree, s: int)
    requires
        t.wf(),
        0 <= s < t.stems(),
    ensures
        t.shape_at(s) == stem_of(
            t.contents_of(s),
            t.cube_of(s),
            (MAX_DEPTH - t.paths@[s].len()) as nat,
            t.capacity as nat,
        ),
    decreases t.stems() - s,
{
    broadcast use vstd::multiset::group_multiset_axioms;

    let levels = (MAX_DEPTH - t.paths@[s].len()) as nat;
    let cube = t.cube_of(s);
    let want = stem_of(t.contents_of(s), cube, levels, t.capacity as nat);
    assert forall|o: int| 0 <= o < 8 implies #[trigger] t.shape_at(s)->children[o]
        == want->children[o] by {
        let r = t.slot(s, o);
        assert(t.slot_ok(s, o, 0));
        lemma_contents_by_octant(t, s, o);
        let part = t.contents_under(s, o);
        assert(t.shape_at(s)->children[o] == t.shape_under(s, o));
        if IncrementalOctree::is_empty_ref(r) {
        } else if IncrementalOctree::is_block_ref(r) {
            vstd::seq_lib::to_multiset_len(t.held(IncrementalOctree::block_of(r)));
        } else {
            let s2 = IncrementalOctree::stem_of(r);
            lemma_count_is_contents(t, 0, 0, s2);
            lemma_shape_at(t, s2);
            assert(t.paths@[s2].drop_last() =~= t.paths@[s]);
            assert(t.cube_of(s2) == cube.child(o));
        }
    }
    assert(t.shape_at(s)->children =~= want->children);
}

/// The shape of a sound growing tree is the shape that its points ask for:
/// it does not depend on the order in which they came.
pub proof fn lemma_shape_is_canonical(t: &IncrementalOctree)
    requires
        t.wf(),
    ensures
        t.shape() == stem_of(t.contents(), t.bounds, MAX_DEPTH as nat, t.capacity as nat),
{
    lemma_shape_at(t, 0);
}

/// Determinism: two sound growing trees over the same cube, with leaves of
/// the same capacity, that hold the same points have the same shape.
pub proof fn lemma_same_points_same_shape(a: &IncrementalOctree, b: &IncrementalOctree)
    requires
        a.wf(),
        b.wf(),
        a.bounds == b.bounds,
        a.capacity == b.capacity,
        a.contents() == b.contents(),
    ensures
        a.shape() == b.shape(),
{
    lemma_shape_is_canonical(a);
    lemma_shape_is_canonical(b);
}

} // verus!
