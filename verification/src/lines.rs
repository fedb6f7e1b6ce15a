//! A growing tree with the order of the points in its leaves: what adding a
//! point makes of it, and that every leaf holds its points in the order in
//! which they came.

use crate::canon::falls_into;
use crate::geometry::{Cube, Point};
use crate::incremental::IncrementalOctree;
use vstd::prelude::*;

verus! {

/// A growing tree as a mathematical value, the points of each leaf in their
/// order: an empty child, a leaf, or a stem with its eight children.
pub ghost enum Lined {
    Empty,
    Leaf { points: Seq<Point> },
    Stem { children: Seq<Lined> },
}

/// The tree that the points `points`, added in this order, make in a cube
/// with `levels` levels left below it: nothing for no point, a leaf with the
/// points in their order for up to `capacity` points or where no level is
/// left, else a stem.
pub open spec fn lined_of(points: Seq<Point>, cube: Cube, levels: nat, capacity: nat) -> Lined
    decreases levels, 1nat,
{
    if points.len() == 0 {
        Lined::Empty
    } else if points.len() <= capacity || levels == 0 {
        Lined::Leaf { points }
    } else {
        lined_stem_of(points, cube, levels, capacity)
    }
}

/// The stem that the points `points`, added in this order, make in `cube`:
/// child `o` is the tree of the points that fall into octant `o`, in their
/// order, one level further down.
pub open spec fn lined_stem_of(points: Seq<Point>, cube: Cube, levels: nat, capacity: nat) -> Lined
    decreases levels, 0nat,
{
    Lined::Stem {
        children: Seq::new(
            8,
            |o: int|
                if levels > 0 {
                    lined_of(
                        points.filter(falls_into(cube, o)),
                        cube.child(o),
                        (levels - 1) as nat,
                        capacity,
                    )
                } else {
                    Lined::Empty
                },
        ),
    }
}

/// What adding `p` makes of a child whose cube is `cube`: an empty child
/// becomes a leaf with `p` alone; a leaf takes `p` after its points if it has
/// a free slot, or if no level is left below it, and else gives way to the
/// stem that its points and then `p` make; a stem takes `p` as
/// `stem_with_point` says.
pub open spec fn with_point(cell: Lined, p: Point, cube: Cube, levels: nat, capacity: nat) -> Lined
    decreases levels, 1nat,
{
    match cell {
        Lined::Empty => Lined::Leaf { points: seq![p] },
        Lined::Leaf { points } => if points.len() < capacity || levels == 0 {
            Lined::Leaf { points: points.push(p) }
        } else {
            lined_stem_of(points.push(p), cube, levels, capacity)
        },
        Lined::Stem { children } => stem_with_point(cell, p, cube, levels, capacity),
    }
}

/// What adding `p` makes of a stem whose cube is `cube`: the child of the
/// octant that `p` falls into takes `p`, the other children stay as they
/// are.
pub open spec fn stem_with_point(
    stem: Lined,
    p: Point,
    cube: Cube,
    levels: nat,
    capacity: nat,
) -> Lined
    decreases levels, 0nat,
{
    if stem is Stem && levels > 0 && stem->children.len() == 8 {
        let o = cube.octant_of(p);
        Lined::Stem {
            children: stem->children.update(
                o,
                with_point(stem->children[o], p, cube.child(o), (levels - 1) as nat, capacity),
            ),
        }
    } else {
        stem
    }
}

impl IncrementalOctree {
    /// The tree under child `o` of stem `s`, as a mathematical value, the
    /// points of each leaf in the order of its slots.
    pub open spec fn lines_under(&self, s: int, o: int) -> Lined
        decreases self.stems() - s, 0nat,
    {
        let r = self.slot(s, o);
        if Self::is_block_ref(r) && 0 <= Self::block_of(r) < self.blocks() {
            Lined::Leaf { points: self.held(Self::block_of(r)) }
        } else if Self::is_stem_ref(r) && s < Self::stem_of(r) < self.stems() {
            self.lines_at(Self::stem_of(r))
        } else {
            Lined::Empty
        }
    }

    /// The tree under stem `s`, as a mathematical value, the points of each
    /// leaf in the order of its slots.
    pub open spec fn lines_at(&self, s: int) -> Lined
        decreases self.stems() - s, 1nat,
    {
        Lined::Stem {
            children: seq![
                self.lines_under(s, 0),
                self.lines_under(s, 1),
                self.lines_under(s, 2),
                self.lines_under(s, 3),
                self.lines_under(s, 4),
                self.lines_under(s, 5),
                self.lines_under(s, 6),
                self.lines_under(s, 7),
            ],
        }
    }

    /// The tree, as a mathematical value, the points of each leaf in the
    /// order of its slots.
    pub open spec fn lines(&self) -> Lined {
        self.lines_at(0)
    }
}

/// Adding a point to the tree that a sequence of points makes gives the tree
/// that the sequence with the point at its end makes: every leaf holds its
/// points in the order in which they came.
pub proof fn lemma_lined_with_point(
    points: Seq<Point>,
    p: Point,
    cube: Cube,
    levels: nat,
    capacity: nat,
)
    requires
        capacity >= 1,
    ensures
        with_point(lined_of(points, cube, levels, capacity), p, cube, levels, capacity) == lined_of(
            points.push(p),
            cube,
            levels,
            capacity,
        ),
        levels > 0 ==> stem_with_point(
            lined_stem_of(points, cube, levels, capacity),
            p,
            cube,
            levels,
            capacity,
        ) == lined_stem_of(points.push(p), cube, levels, capacity),
    decreases levels,
{
    if levels > 0 {
        let at = cube.octant_of(p);
        let was = lined_stem_of(points, cube, levels, capacity);
        let now = lined_stem_of(points.push(p), cube, levels, capacity);
        let got = stem_with_point(was, p, cube, levels, capacity);
        assert forall|o: int| 0 <= o < 8 implies #[trigger] got->children[o] == now->children[o] by {
            let f = falls_into(cube, o);
            points.lemma_filter_push(p, f);
            if o == at {
                lemma_lined_with_point(
                    points.filter(f),
                    p,
                    cube.child(o),
                    (levels - 1) as nat,
                    capacity,
                );
            }
        }
        assert(got->children =~= now->children);
    }
    if points.len() == 0 {
        assert(points.push(p) =~= seq![p]);
    }
    assert(points.push(p).len() == points.len() + 1);
}

} // verus!
