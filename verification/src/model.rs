//! The mathematical octree of a set of points: what a build must produce.

use crate::geometry::{
    lemma_child_holds, lemma_cube_nesting, lemma_narrow_cube_holds_one, room, Cube, Point,
};
use vstd::multiset::Multiset;
use vstd::prelude::*;

verus! {

/// A tree as a mathematical value.  A leaf holds the numbers of its points,
/// without order; a stem holds its eight children, by octant.
pub ghost enum Tree {
    Leaf { ids: Multiset<u32> },
    Stem { children: Seq<Tree> },
}

/// The test "point number `id` falls into octant `o` of `cube`".
pub open spec fn in_octant(points: Seq<Point>, cube: Cube, o: int) -> spec_fn(u32) -> bool {
    |id: u32| cube.octant_of(points[id as int]) == o
}

/// The octree of the points numbered `ids`, inside `cube`: a leaf once
/// `depth` is used up or no more than `bucket` points are left, else a stem
/// whose child `o` is the octree of the points in octant `o`, one level
/// further down.
pub open spec fn ideal(
    points: Seq<Point>,
    ids: Multiset<u32>,
    cube: Cube,
    depth: nat,
    bucket: nat,
) -> Tree
    decreases depth,
{
    if depth == 0 || ids.len() <= bucket {
        Tree::Leaf { ids }
    } else {
        Tree::Stem {
            children: Seq::new(
                8,
                |o: int|
                    ideal(
                        points,
                        ids.filter(in_octant(points, cube, o)),
                        cube.child(o),
                        (depth - 1) as nat,
                        bucket,
                    ),
            ),
        }
    }
}

impl Tree {
    /// The number of points in the leaves of the tree.
    pub open spec fn population(self) -> nat
        decreases self,
    {
        match self {
            Tree::Leaf { ids } => ids.len(),
            Tree::Stem { children } => Self::population_of(children, children.len()),
        }
    }

    /// The number of points in the leaves of the first `n` of `children`.
    pub open spec fn population_of(children: Seq<Tree>, n: nat) -> nat
        decreases children, n,
    {
        if n == 0 || n > children.len() {
            0
        } else {
            Self::population_of(children, (n - 1) as nat) + children[n - 1].population()
        }
    }

    /// Every leaf holds at most `bucket` points, unless it lies `depth` levels
    /// down, where subdivision stops.
    pub open spec fn within_bucket(self, bucket: nat, depth: nat) -> bool
        decreases self,
    {
        match self {
            Tree::Leaf { ids } => ids.len() <= bucket || depth == 0,
            Tree::Stem { children } => depth > 0 && forall|o: int|
                0 <= o < children.len() ==> (#[trigger] children[o]).within_bucket(
                    bucket,
                    (depth - 1) as nat,
                ),
        }
    }
}

impl Tree {
    /// Every leaf holds at most `bucket` points, or points that all lie at
    /// the same place.
    pub open spec fn settled(self, points: Seq<Point>, bucket: nat) -> bool
        decreases self,
    {
        match self {
            Tree::Leaf { ids } => ids.len() <= bucket || forall|a: u32, b: u32|
                ids.contains(a) && ids.contains(b) ==> points[a as int] == points[b as int],
            Tree::Stem { children } => forall|o: int|
                0 <= o < children.len() ==> (#[trigger] children[o]).settled(points, bucket),
        }
    }
}

impl Tree {
    /// The number of nodes of the tree, stems and leaves together.
    pub open spec fn nodes(self) -> nat
        decreases self,
    {
        match self {
            Tree::Leaf { ids } => 1,
            Tree::Stem { children } => 1 + Self::nodes_of(children, children.len()),
        }
    }

    /// The number of nodes of the first `n` of `children`.
    pub open spec fn nodes_of(children: Seq<Tree>, n: nat) -> nat
        decreases children, n,
    {
        if n == 0 || n > children.len() {
            0
        } else {
            Self::nodes_of(children, (n - 1) as nat) + children[n - 1].nodes()
        }
    }
}

/// The first children hold no more nodes than a longer run of them.
pub proof fn lemma_nodes_of_grows(children: Seq<Tree>, i: nat, j: nat)
    requires
        i <= j <= children.len(),
    ensures
        Tree::nodes_of(children, i) <= Tree::nodes_of(children, j),
    decreases j - i,
{
    if i < j {
        lemma_nodes_of_grows(children, i, (j - 1) as nat);
    }
}

/// How many of the points numbered `ids` fall into the first `n` octants of
/// `cube`.
pub open spec fn in_first(points: Seq<Point>, ids: Multiset<u32>, cube: Cube, n: nat) -> nat
    decreases n,
{
    if n == 0 {
        0
    } else {
        in_first(points, ids, cube, (n - 1) as nat) + ids.filter(
            in_octant(points, cube, n - 1),
        ).len()
    }
}

/// Every point falls into one of the eight octants of a cube, and into one
/// only: the octants share out the points.
pub proof fn lemma_octants_share(points: Seq<Point>, ids: Multiset<u32>, cube: Cube)
    ensures
        in_first(points, ids, cube, 8) == ids.len(),
    decreases ids.len(),
{
    broadcast use vstd::multiset::group_multiset_axioms;

    if ids.len() == 0 {
        assert forall|o: int| 0 <= o < 8 implies (#[trigger] ids.filter(
            in_octant(points, cube, o),
        )).len() == 0 by {
            let part = ids.filter(in_octant(points, cube, o));
            if part.len() > 0 {
                let id = part.choose();
                assert(part.contains(id));
                assert(ids.contains(id));
                vstd::multiset::lemma_multiset_empty_len(ids);
            }
        }
        lemma_in_first_eight(points, ids, cube);
    } else {
        let x = ids.choose();
        let rest = ids.remove(x);
        let home = cube.octant_of(points[x as int]);
        assert(ids.contains(x));
        assert(rest.len() == ids.len() - 1);
        lemma_octants_share(points, rest, cube);
        assert forall|o: int| 0 <= o < 8 implies (#[trigger] ids.filter(
            in_octant(points, cube, o),
        )).len() == rest.filter(in_octant(points, cube, o)).len() + (if o == home {
            1int
        } else {
            0int
        }) by {
            let f = in_octant(points, cube, o);
            if o == home {
                assert(f(x));
                assert(ids.filter(f) =~= rest.filter(f).insert(x));
            } else {
                assert(!f(x));
                assert(ids.filter(f) =~= rest.filter(f));
            }
        }
        lemma_in_first_eight(points, ids, cube);
        lemma_in_first_eight(points, rest, cube);
    }
}

/// The points in the eight octants, counted octant by octant.
pub proof fn lemma_in_first_eight(points: Seq<Point>, ids: Multiset<u32>, cube: Cube)
    ensures
        in_first(points, ids, cube, 8) == ids.filter(in_octant(points, cube, 0)).len()
            + ids.filter(in_octant(points, cube, 1)).len() + ids.filter(
            in_octant(points, cube, 2),
        ).len() + ids.filter(in_octant(points, cube, 3)).len() + ids.filter(
            in_octant(points, cube, 4),
        ).len() + ids.filter(in_octant(points, cube, 5)).len() + ids.filter(
            in_octant(points, cube, 6),
        ).len() + ids.filter(in_octant(points, cube, 7)).len(),
{
    reveal_with_fuel(in_first, 9);
}

/// Bucket bound, in full: in the octree of points that lie in a cube which
/// gets narrower than one step of the lattice within `depth` halvings, every
/// leaf holds at most `bucket` points, unless all its points lie at the same
/// place, where no subdivision can part them.
pub proof fn lemma_bucket_bound_exact(
    points: Seq<Point>,
    ids: Multiset<u32>,
    cube: Cube,
    depth: nat,
    bucket: nat,
)
    requires
        cube.wf(),
        room(cube.den as int, depth),
        cube.fine(depth),
        forall|id: u32| ids.contains(id) ==> cube.holds(#[trigger] points[id as int]),
    ensures
        ideal(points, ids, cube, depth, bucket).settled(points, bucket),
    decreases depth,
{
    broadcast use vstd::multiset::group_multiset_axioms;

    let t = ideal(points, ids, cube, depth, bucket);
    if depth == 0 {
        assert forall|a: u32, b: u32| ids.contains(a) && ids.contains(b) implies points[a as int]
            == points[b as int] by {
            lemma_narrow_cube_holds_one(cube, points[a as int], points[b as int]);
        }
    } else if ids.len() > bucket {
        assert forall|o: int| 0 <= o < t->children.len() implies (#[trigger] t->children[o]).settled(
            points,
            bucket,
        ) by {
            let part = ids.filter(in_octant(points, cube, o));
            lemma_cube_nesting(cube, o);
            assert forall|id: u32| part.contains(id) implies cube.child(o).holds(
                #[trigger] points[id as int],
            ) && cube.child(o).fine((depth - 1) as nat) by {
                assert(ids.contains(id));
                assert(cube.octant_of(points[id as int]) == o);
                lemma_child_holds(cube, points[id as int], depth);
            }
            if part.len() > 0 {
                let id = part.choose();
                assert(part.contains(id));
                assert(cube.child(o).fine((depth - 1) as nat));
                lemma_bucket_bound_exact(points, part, cube.child(o), (depth - 1) as nat, bucket);
            } else {
                assert(ideal(points, part, cube.child(o), (depth - 1) as nat, bucket) is Leaf);
            }
        }
    }
}

/// Bucket bound: in the octree of any set of points, every leaf holds at most
/// `bucket` points, unless it lies at the depth where subdivision stops.
pub proof fn lemma_bucket_bound(
    points: Seq<Point>,
    ids: Multiset<u32>,
    cube: Cube,
    depth: nat,
    bucket: nat,
)
    ensures
        ideal(points, ids, cube, depth, bucket).within_bucket(bucket, depth),
    decreases depth,
{
    if !(depth == 0 || ids.len() <= bucket) {
        let t = ideal(points, ids, cube, depth, bucket);
        assert forall|o: int| 0 <= o < t->children.len() implies (#[trigger] t->children[o]).within_bucket(
            bucket,
            (depth - 1) as nat,
        ) by {
            lemma_bucket_bound(
                points,
                ids.filter(in_octant(points, cube, o)),
                cube.child(o),
                (depth - 1) as nat,
                bucket,
            );
        }
    }
}

} // verus!
