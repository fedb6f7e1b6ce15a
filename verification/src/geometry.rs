//! Lattice points, exact dyadic scalars and the cubes that an octree cuts
//! space into.
//!
//! Points have integer coordinates.  A cube's centre and edge length are
//! fractions over a common power-of-two denominator, so that halving an edge
//! and moving a centre by a quarter of it are exact at every level.

use crate::iterators::subdivide::Subdivide;
use vstd::prelude::*;

verus! {

/// The largest number of times a cube may be halved.
pub const MAX_DEPTH: u32 = 32;

/// The largest denominator a scalar or a cube may carry.
pub const DEN_MAX: i128 = 0x2_0000_0000_0000_0000;

/// A point of the integer lattice.
#[derive(Clone, Copy, Debug, PartialEq, Eq, Structural)]
pub struct Point {
    pub x: i32,
    pub y: i32,
    pub z: i32,
}

/// An exact fraction `num / den` with a positive denominator.
#[derive(Clone, Copy, Debug, PartialEq, Eq, Structural)]
pub struct Scalar {
    pub num: i128,
    pub den: i128,
}

/// An axis-aligned cube: centre `(cx, cy, cz) / den`, edge length `size / den`.
#[derive(Clone, Copy, Debug, PartialEq, Eq, Structural)]
pub struct Cube {
    pub cx: i128,
    pub cy: i128,
    pub cz: i128,
    pub size: i128,
    pub den: i128,
}

/// The smaller of two numbers.
pub open spec fn min_int(a: int, b: int) -> int {
    if a <= b {
        a
    } else {
        b
    }
}

/// The larger of two numbers.
pub open spec fn max_int(a: int, b: int) -> int {
    if a >= b {
        a
    } else {
        b
    }
}

impl Point {
    /// The coordinate along `axis`: 0 for x, 1 for y, anything else for z.
    pub open spec fn coord(self, axis: int) -> int {
        if axis == 0 {
            self.x as int
        } else if axis == 1 {
            self.y as int
        } else {
            self.z as int
        }
    }

    /// Whether the coordinate along `axis` lies strictly below `pivot`.
    pub open spec fn below(self, axis: int, pivot: Scalar) -> bool {
        self.coord(axis) * pivot.den < pivot.num
    }

    /// The component-wise minimum of two points.
    pub open spec fn meet(self, other: Point) -> Point {
        Point {
            x: min_int(self.x as int, other.x as int) as i32,
            y: min_int(self.y as int, other.y as int) as i32,
            z: min_int(self.z as int, other.z as int) as i32,
        }
    }

    /// The component-wise maximum of two points.
    pub open spec fn join(self, other: Point) -> Point {
        Point {
            x: max_int(self.x as int, other.x as int) as i32,
            y: max_int(self.y as int, other.y as int) as i32,
            z: max_int(self.z as int, other.z as int) as i32,
        }
    }

    /// The point with the coordinates `x`, `y`, `z`.
    pub fn new(x: i32, y: i32, z: i32) -> (p: Point)
        ensures
            p == (Point { x, y, z }),
    {
        Point { x, y, z }
    }

    /// The coordinate along `axis`: 0 for x, 1 for y, 2 for z.
    pub fn get(&self, axis: usize) -> (c: i32)
        requires
            axis < 3,
        ensures
            c == self.coord(axis as int),
    {
        if axis == 0 {
            self.x
        } else if axis == 1 {
            self.y
        } else {
            self.z
        }
    }

    /// The component-wise minimum of two points.
    pub fn min(self, other: Point) -> (p: Point)
        ensures
            p == self.meet(other),
    {
        Point {
            x: if self.x <= other.x { self.x } else { other.x },
            y: if self.y <= other.y { self.y } else { other.y },
            z: if self.z <= other.z { self.z } else { other.z },
        }
    }

    /// The component-wise maximum of two points.
    pub fn max(self, other: Point) -> (p: Point)
        ensures
            p == self.join(other),
    {
        Point {
            x: if self.x >= other.x { self.x } else { other.x },
            y: if self.y >= other.y { self.y } else { other.y },
            z: if self.z >= other.z { self.z } else { other.z },
        }
    }

    /// Whether the coordinate along `axis` lies strictly below `pivot`.  The
    /// comparison is exact.
    pub fn is_below(&self, axis: usize, pivot: Scalar) -> (b: bool)
        requires
            axis < 3,
            pivot.wf(),
        ensures
            b == self.below(axis as int, pivot),
    {
        let c: i128 = self.get(axis) as i128;
        assert(-0x8000_0000 * 0x2_0000_0000_0000_0000 <= c * pivot.den <= 0x8000_0000
            * 0x2_0000_0000_0000_0000) by (nonlinear_arith)
            requires
                -0x8000_0000 <= c < 0x8000_0000,
                0 < pivot.den <= 0x2_0000_0000_0000_0000,
        ;
        c * pivot.den < pivot.num
    }
}

impl Scalar {
    /// The denominator is positive and bounded.
    pub open spec fn wf(self) -> bool {
        0 < self.den <= DEN_MAX
    }

    /// The whole number `n`.
    pub fn from_int(n: i32) -> (s: Scalar)
        ensures
            s == (Scalar { num: n as i128, den: 1 }),
            s.wf(),
    {
        Scalar { num: n as i128, den: 1 }
    }
}

/// The sign, `-1` or `1`, of octant `o` along `axis`.  Octants are numbered
/// `4 * x + 2 * y + z`, where each of `x`, `y`, `z` is 0 on the lower side of
/// the centre and 1 on the upper side.
pub open spec fn octant_sign(o: int, axis: int) -> int {
    let bit = if axis == 0 {
        (o / 4) % 2
    } else if axis == 1 {
        (o / 2) % 2
    } else {
        o % 2
    };
    if bit == 1 {
        1
    } else {
        -1
    }
}

/// Whether a denominator can be multiplied by four `levels` more times.
pub open spec fn room(den: int, levels: nat) -> bool
    decreases levels,
{
    levels == 0 || (4 * den <= DEN_MAX && room(4 * den, (levels - 1) as nat))
}

/// Room for some levels is room for fewer.
pub proof fn lemma_room_less(den: int, levels: nat, fewer: nat)
    requires
        room(den, levels),
        fewer <= levels,
        0 < den,
    ensures
        room(den, fewer),
    decreases levels,
{
    if fewer > 0 {
        lemma_room_less(4 * den, (levels - 1) as nat, (fewer - 1) as nat);
    }
}

/// A cube with denominator one or two has room for every level a tree may
/// have.
pub proof fn lemma_room_at_root(den: int)
    requires
        0 < den <= 2,
    ensures
        room(den, MAX_DEPTH as nat),
{
    assert(room(2, 32)) by {
        reveal_with_fuel(room, 33);
    }
    lemma_room_bound(den, 32, 2);
}

/// Room for a larger denominator is room for a smaller one.
proof fn lemma_room_bound(den: int, levels: nat, top: int)
    requires
        0 < den <= top,
        room(top, levels),
    ensures
        room(den, levels),
    decreases levels,
{
    if levels > 0 {
        lemma_room_bound(4 * den, (levels - 1) as nat, 4 * top);
    }
}

/// The component-wise minimum of a sequence of points; the origin if it is empty.
pub open spec fn low(points: Seq<Point>) -> Point
    decreases points.len(),
{
    if points.len() == 0 {
        Point { x: 0, y: 0, z: 0 }
    } else if points.len() == 1 {
        points[0]
    } else {
        low(points.drop_last()).meet(points.last())
    }
}

/// The component-wise maximum of a sequence of points; the origin if it is empty.
pub open spec fn high(points: Seq<Point>) -> Point
    decreases points.len(),
{
    if points.len() == 0 {
        Point { x: 0, y: 0, z: 0 }
    } else if points.len() == 1 {
        points[0]
    } else {
        high(points.drop_last()).join(points.last())
    }
}

/// `low` and `high` bound every point of the sequence along every axis.
pub proof fn lemma_low_high_bound(points: Seq<Point>, i: int, axis: int)
    requires
        0 <= i < points.len(),
    ensures
        low(points).coord(axis) <= points[i].coord(axis) <= high(points).coord(axis),
    decreases points.len(),
{
    if points.len() > 1 && i < points.len() - 1 {
        lemma_low_high_bound(points.drop_last(), i, axis);
    }
}

/// `low` never exceeds `high` on a sequence that is not empty.
pub proof fn lemma_low_le_high(points: Seq<Point>, axis: int)
    ensures
        low(points).coord(axis) <= high(points).coord(axis),
{
    if points.len() > 0 {
        lemma_low_high_bound(points, 0, axis);
    }
}

impl Cube {
    /// The centre numerator along `axis`.
    pub open spec fn center(self, axis: int) -> int {
        if axis == 0 {
            self.cx as int
        } else if axis == 1 {
            self.cy as int
        } else {
            self.cz as int
        }
    }

    /// The centre coordinate along `axis` as a scalar.
    pub open spec fn pivot(self, axis: int) -> Scalar {
        Scalar { num: self.center(axis) as i128, den: self.den }
    }

    /// The denominator is positive and bounded, the edge is not negative, and
    /// the cube lies within `2^32` of the origin along every axis.
    pub open spec fn wf(self) -> bool {
        &&& 0 < self.den <= DEN_MAX
        &&& 0 <= self.size
        &&& forall|axis: int|
            0 <= axis < 3 ==> {
                &&& 2 * #[trigger] self.center(axis) + self.size <= 0x2_0000_0000 * self.den
                &&& -2 * self.center(axis) + self.size <= 0x2_0000_0000 * self.den
            }
    }

    /// The cube of octant `o`: half the edge, the centre moved by a quarter of
    /// the edge along each axis, towards the side that `o` names.
    pub open spec fn child(self, o: int) -> Cube {
        Cube {
            cx: (4 * self.cx + octant_sign(o, 0) * self.size) as i128,
            cy: (4 * self.cy + octant_sign(o, 1) * self.size) as i128,
            cz: (4 * self.cz + octant_sign(o, 2) * self.size) as i128,
            size: (2 * self.size) as i128,
            den: (4 * self.den) as i128,
        }
    }

    /// Whether `inner` is the cube of octant `o` of this cube: it is sound,
    /// its edge is exactly half of this cube's, and along each axis its centre
    /// lies exactly a quarter of this cube's edge from this cube's centre,
    /// towards the side of the octant.  The equalities are those of the
    /// fractions, cross-multiplied.
    #[verifier::opaque]
    pub open spec fn nests(self, inner: Cube, o: int) -> bool {
        &&& inner.wf()
        &&& 2 * inner.size * self.den == self.size * inner.den
        &&& forall|axis: int|
            0 <= axis < 3 ==> 4 * (#[trigger] inner.center(axis) * self.den - self.center(axis)
                * inner.den) == octant_sign(o, axis) * self.size * inner.den
    }

    /// Whether `p` lies in the cube, its faces included.
    pub open spec fn holds(self, p: Point) -> bool {
        forall|axis: int|
            0 <= axis < 3 ==> -self.size <= 2 * (#[trigger] p.coord(axis) * self.den - self.center(
                axis,
            )) <= self.size
    }

    /// Whether the edge is shorter than one step of the lattice once the cube
    /// has been halved `levels` times.
    pub open spec fn fine(self, levels: nat) -> bool {
        narrow(self.size as int, self.den as int, levels)
    }

    /// The octant of this cube that `p` falls into.  A coordinate equal to the
    /// centre's counts as the upper side.
    pub open spec fn octant_of(self, p: Point) -> int {
        (if p.below(0, self.pivot(0)) { 0int } else { 4int })
        + (if p.below(1, self.pivot(1)) { 0int } else { 2int })
        + (if p.below(2, self.pivot(2)) { 0int } else { 1int })
    }

    /// The smallest cube around the bounding box of `points`, centred on the
    /// box: its centre is the midpoint of the box and its edge the longest
    /// side of the box.  No point or a single point gives an edge of zero.
    pub open spec fn bounding_spec(points: Seq<Point>) -> Cube {
        let lo = low(points);
        let hi = high(points);
        Cube {
            cx: (lo.x + hi.x) as i128,
            cy: (lo.y + hi.y) as i128,
            cz: (lo.z + hi.z) as i128,
            size: (2 * max_int(max_int(hi.x - lo.x, hi.y - lo.y), hi.z - lo.z)) as i128,
            den: 2,
        }
    }

    /// The smallest cube around the bounding box of `points`, centred on the
    /// box.
    pub fn bounding(points: &[Point]) -> (c: Cube)
        ensures
            c == Cube::bounding_spec(points@),
            c.wf(),
    {
        let mut lo = Point { x: 0, y: 0, z: 0 };
        let mut hi = Point { x: 0, y: 0, z: 0 };
        let mut i: usize = 0;
        while i < points.len()
            invariant
                i <= points.len(),
                lo == low(points@.take(i as int)),
                hi == high(points@.take(i as int)),
            decreases points.len() - i,
        {
            let p = points[i];
            proof {
                assert(points@.take(i + 1).drop_last() =~= points@.take(i as int));
            }
            if i == 0 {
                lo = p;
                hi = p;
            } else {
                lo = lo.min(p);
                hi = hi.max(p);
            }
            i += 1;
        }
        proof {
            assert(points@.take(i as int) =~= points@);
            lemma_low_le_high(points@, 0);
            lemma_low_le_high(points@, 1);
            lemma_low_le_high(points@, 2);
        }
        let ex: i128 = hi.x as i128 - lo.x as i128;
        let ey: i128 = hi.y as i128 - lo.y as i128;
        let ez: i128 = hi.z as i128 - lo.z as i128;
        let exy: i128 = if ex >= ey { ex } else { ey };
        let extent: i128 = if exy >= ez { exy } else { ez };
        let c = Cube {
            cx: lo.x as i128 + hi.x as i128,
            cy: lo.y as i128 + hi.y as i128,
            cz: lo.z as i128 + hi.z as i128,
            size: 2 * extent,
            den: 2,
        };
        assert(c.wf());
        c
    }

    /// The centre coordinate along `axis`.
    pub fn pivot_at(&self, axis: usize) -> (s: Scalar)
        requires
            axis < 3,
            self.wf(),
        ensures
            s == self.pivot(axis as int),
            s.wf(),
    {
        let num = if axis == 0 {
            self.cx
        } else if axis == 1 {
            self.cy
        } else {
            self.cz
        };
        Scalar { num, den: self.den }
    }

    /// The cube of octant `o`.
    pub fn child_cube(&self, o: usize) -> (c: Cube)
        requires
            self.wf(),
            4 * self.den <= DEN_MAX,
            o < 8,
        ensures
            c == self.child(o as int),
            c.wf(),
            self.nests(c, o as int),
    {
        proof {
            lemma_cube_nesting(*self, o as int);
        }
        assert(self.center(0) == self.cx && self.center(1) == self.cy && self.center(2) == self.cz);
        let off = Subdivide::offset(o);
        let sx: i128 = if off.x == 1 { self.size } else { -self.size };
        let sy: i128 = if off.y == 1 { self.size } else { -self.size };
        let sz: i128 = if off.z == 1 { self.size } else { -self.size };
        proof {
            let size = self.size as int;
            let kx = octant_sign(o as int, 0);
            let ky = octant_sign(o as int, 1);
            let kz = octant_sign(o as int, 2);
            assert(off.x == kx && off.y == ky && off.z == kz);
            assert(sx == kx * size) by (nonlinear_arith)
                requires
                    (kx == 1 && sx == size) || (kx == -1 && sx == -size),
            ;
            assert(sy == ky * size) by (nonlinear_arith)
                requires
                    (ky == 1 && sy == size) || (ky == -1 && sy == -size),
            ;
            assert(sz == kz * size) by (nonlinear_arith)
                requires
                    (kz == 1 && sz == size) || (kz == -1 && sz == -size),
            ;
        }
        Cube {
            cx: 4 * self.cx + sx,
            cy: 4 * self.cy + sy,
            cz: 4 * self.cz + sz,
            size: 2 * self.size,
            den: 4 * self.den,
        }
    }

    /// The octant of this cube that `p` falls into.
    pub fn octant(&self, p: &Point) -> (o: usize)
        requires
            self.wf(),
        ensures
            o == self.octant_of(*p),
            o < 8,
    {
        let x: usize = if p.is_below(0, self.pivot_at(0)) {
            0
        } else {
            4
        };
        let y: usize = if p.is_below(1, self.pivot_at(1)) {
            0
        } else {
            2
        };
        let z: usize = if p.is_below(2, self.pivot_at(2)) {
            0
        } else {
            1
        };
        x + y + z
    }

    /// Whether `p` lies in the cube, its faces included.
    pub fn contains(&self, p: &Point) -> (b: bool)
        requires
            self.wf(),
        ensures
            b == self.holds(*p),
    {
        let ghost me = *self;
        let ghost pt = *p;
        let mut axis: usize = 0;
        while axis < 3
            invariant
                axis <= 3,
                me == *self,
                pt == *p,
                self.wf(),
                forall|a: int|
                    0 <= a < axis ==> -me.size <= 2 * (#[trigger] pt.coord(a) * me.den - me.center(
                        a,
                    )) <= me.size,
            decreases 3 - axis,
        {
            let x: i128 = p.get(axis) as i128;
            let c: i128 = self.pivot_at(axis).num;
            assert(-0x8000_0000 * 0x2_0000_0000_0000_0000 <= x * self.den <= 0x8000_0000
                * 0x2_0000_0000_0000_0000) by (nonlinear_arith)
                requires
                    -0x8000_0000 <= x < 0x8000_0000,
                    0 < self.den <= 0x2_0000_0000_0000_0000,
            ;
            assert(c == me.center(axis as int));
            let twice: i128 = 2 * (x * self.den - c);
            if twice < -self.size || twice > self.size {
                assert(!(-me.size <= 2 * (pt.coord(axis as int) * me.den - me.center(axis as int))
                    <= me.size));
                return false;
            }
            axis += 1;
        }
        true
    }

    /// The cube with centre `center` and edge length `size`.
    pub open spec fn new_spec(center: Point, size: u32) -> Cube {
        Cube {
            cx: center.x as i128,
            cy: center.y as i128,
            cz: center.z as i128,
            size: size as i128,
            den: 1,
        }
    }

    /// The cube with centre `center` and edge length `size`.
    pub fn new(center: Point, size: u32) -> (c: Cube)
        ensures
            c == Cube::new_spec(center, size),
            c.wf(),
    {
        let c = Cube {
            cx: center.x as i128,
            cy: center.y as i128,
            cz: center.z as i128,
            size: size as i128,
            den: 1,
        };
        assert(c.wf());
        c
    }
}

/// The cube reached from `cube` by going into the octants of `path`, one
/// after the other.
pub open spec fn cube_at(cube: Cube, path: Seq<int>) -> Cube
    decreases path.len(),
{
    if path.len() == 0 {
        cube
    } else {
        cube_at(cube, path.drop_last()).child(path.last())
    }
}

/// Whether `path` is the way that `p` takes down from `cube`: at every step
/// the octant that `p` falls into.
pub open spec fn follows(cube: Cube, p: Point, path: Seq<int>) -> bool {
    forall|i: int|
        0 <= i < path.len() ==> cube_at(cube, path.take(i)).octant_of(p) == #[trigger] path[i]
}

/// Whether every entry of `path` names an octant.
pub open spec fn octants_only(path: Seq<int>) -> bool {
    forall|i: int| 0 <= i < path.len() ==> 0 <= #[trigger] path[i] < 8
}

/// A cube reached by a path no longer than the room allows is sound, and
/// has the room that is left.
pub proof fn lemma_cube_at(cube: Cube, path: Seq<int>, levels: nat)
    requires
        cube.wf(),
        room(cube.den as int, levels),
        path.len() <= levels,
        octants_only(path),
    ensures
        cube_at(cube, path).wf(),
        room(cube_at(cube, path).den as int, (levels - path.len()) as nat),
    decreases path.len(),
{
    if path.len() > 0 {
        let up = path.drop_last();
        assert(octants_only(up)) by {
            assert forall|i: int| 0 <= i < up.len() implies 0 <= #[trigger] up[i] < 8 by {
                assert(up[i] == path[i]);
            }
        }
        lemma_cube_at(cube, up, levels);
        let c = cube_at(cube, up);
        assert(room(c.den as int, (levels - up.len()) as nat));
        lemma_cube_nesting(c, path.last());
    }
}

/// A point that lies in a cube and follows a path lies in the cube that the
/// path leads to, and so does every other point that follows the path.
pub proof fn lemma_follows_holds(cube: Cube, p: Point, path: Seq<int>, levels: nat)
    requires
        cube.wf(),
        room(cube.den as int, levels),
        path.len() <= levels,
        octants_only(path),
        cube.holds(p),
        follows(cube, p, path),
    ensures
        cube_at(cube, path).holds(p),
        cube.fine(levels) ==> cube_at(cube, path).fine((levels - path.len()) as nat),
    decreases path.len(),
{
    if path.len() > 0 {
        let up = path.drop_last();
        assert(octants_only(up) && follows(cube, p, up)) by {
            assert forall|i: int| 0 <= i < up.len() implies 0 <= #[trigger] up[i] < 8 && cube_at(
                cube,
                up.take(i),
            ).octant_of(p) == up[i] by {
                assert(up[i] == path[i]);
                assert(up.take(i) =~= path.take(i));
            }
        }
        lemma_follows_holds(cube, p, up, levels);
        lemma_cube_at(cube, up, levels);
        let c = cube_at(cube, up);
        assert(path.take(path.len() - 1) =~= up);
        assert(c.octant_of(p) == path.last()) by {
            assert(path[path.len() - 1] == path.last());
        }
        lemma_child_holds(c, p, (levels - up.len()) as nat);
    }
}

/// Whether `size / den`, halved `levels` times, is less than one.
pub open spec fn narrow(size: int, den: int, levels: nat) -> bool
    decreases levels,
{
    if levels == 0 {
        size < den
    } else {
        narrow(size, 2 * den, (levels - 1) as nat)
    }
}

/// Doubling both the edge and the denominator changes nothing.
pub proof fn lemma_narrow_scaled(size: int, den: int, levels: nat)
    ensures
        narrow(2 * size, 2 * den, levels) == narrow(size, den, levels),
    decreases levels,
{
    if levels > 0 {
        lemma_narrow_scaled(size, 2 * den, (levels - 1) as nat);
    }
}

/// Two to the power `levels`.
pub open spec fn two_to(levels: nat) -> int
    decreases levels,
{
    if levels == 0 {
        1
    } else {
        2 * two_to((levels - 1) as nat)
    }
}

/// An edge shorter than `2^32` is shorter than one step after 32 halvings.
pub proof fn lemma_narrow_at_root(size: int, den: int)
    requires
        0 < den,
        size < 0x1_0000_0000 * den,
    ensures
        narrow(size, den, MAX_DEPTH as nat),
{
    assert(two_to(32) == 0x1_0000_0000) by {
        reveal_with_fuel(two_to, 33);
    }
    lemma_narrow_by(size, den, 32);
}

/// An edge shorter than `2^levels` is shorter than one step after `levels`
/// halvings.
pub proof fn lemma_narrow_by(size: int, den: int, levels: nat)
    requires
        0 < den,
        size < two_to(levels) * den,
    ensures
        narrow(size, den, levels),
    decreases levels,
{
    if levels > 0 {
        let half = two_to((levels - 1) as nat);
        assert(two_to(levels) * den == half * (2 * den)) by (nonlinear_arith)
            requires
                two_to(levels) == 2 * half,
        ;
        lemma_narrow_by(size, 2 * den, (levels - 1) as nat);
    }
}

/// A point of a cube lies in the child cube of the octant it falls into; that
/// child needs one halving less to get narrow.
pub proof fn lemma_child_holds(parent: Cube, p: Point, levels: nat)
    requires
        parent.wf(),
        4 * parent.den <= DEN_MAX,
        parent.holds(p),
    ensures
        parent.child(parent.octant_of(p)).holds(p),
        levels > 0 && parent.fine(levels) ==> parent.child(parent.octant_of(p)).fine(
            (levels - 1) as nat,
        ),
{
    let o = parent.octant_of(p);
    let c = parent.child(o);
    let s = parent.size as int;
    let d = parent.den as int;
    lemma_cube_nesting(parent, o);
    assert(c.size == 2 * s && c.den == 4 * d);
    assert forall|axis: int| 0 <= axis < 3 implies -c.size <= 2 * (#[trigger] p.coord(axis) * c.den
        - c.center(axis)) <= c.size by {
        let x = p.coord(axis);
        let pc = parent.center(axis);
        let k = octant_sign(o, axis);
        assert(-s <= 2 * (x * d - pc) <= s);
        assert(c.center(axis) == 4 * pc + k * s) by {
            assert(parent.center(0) == parent.cx && parent.center(1) == parent.cy
                && parent.center(2) == parent.cz);
            assert(c.center(0) == c.cx && c.center(1) == c.cy && c.center(2) == c.cz);
        }
        assert(p.below(axis, parent.pivot(axis)) == (x * d < pc));
        assert(k == if x * d < pc { -1int } else { 1int });
        assert(x * (4 * d) == 4 * (x * d)) by (nonlinear_arith);
        assert(k * s == if x * d < pc { -s } else { s }) by (nonlinear_arith)
            requires
                k == if x * d < pc { -1int } else { 1int },
        ;
    }
    if levels > 0 && parent.fine(levels) {
        lemma_narrow_scaled(s, 2 * d, (levels - 1) as nat);
    }
}

/// Two lattice points in one cube with an edge shorter than one step are the
/// same point.
pub proof fn lemma_narrow_cube_holds_one(cube: Cube, p: Point, q: Point)
    requires
        cube.wf(),
        cube.holds(p),
        cube.holds(q),
        cube.fine(0),
    ensures
        p == q,
{
    assert forall|axis: int| 0 <= axis < 3 implies p.coord(axis) == q.coord(axis) by {
        let x = p.coord(axis);
        let y = q.coord(axis);
        let d = cube.den as int;
        let c = cube.center(axis);
        let s = cube.size as int;
        assert(-s <= 2 * (x * d - c) <= s);
        assert(-s <= 2 * (y * d - c) <= s);
        assert(x == y) by (nonlinear_arith)
            requires
                -s <= 2 * (x * d - c) <= s,
                -s <= 2 * (y * d - c) <= s,
                s < d,
                0 < d,
        ;
    }
    assert(p.coord(0) == q.coord(0) && p.coord(1) == q.coord(1) && p.coord(2) == q.coord(2));
}

/// The bounding cube of a sequence of points holds each of them, and gets
/// narrow within the depth allowed.
pub proof fn lemma_bounding_holds(points: Seq<Point>, i: int)
    requires
        0 <= i < points.len(),
    ensures
        Cube::bounding_spec(points).holds(points[i]),
        Cube::bounding_spec(points).fine(MAX_DEPTH as nat),
{
    let c = Cube::bounding_spec(points);
    lemma_low_high_bound(points, i, 0);
    lemma_low_high_bound(points, i, 1);
    lemma_low_high_bound(points, i, 2);
    let lo = low(points);
    let hi = high(points);
    assert(c.center(0) == lo.x + hi.x && c.center(1) == lo.y + hi.y && c.center(2) == lo.z + hi.z);
    assert forall|axis: int| 0 <= axis < 3 implies -c.size <= 2 * (#[trigger] points[i].coord(axis)
        * c.den - c.center(axis)) <= c.size by {
        let x = points[i].coord(axis);
        assert(lo.coord(axis) <= x <= hi.coord(axis));
        assert(c.center(axis) == lo.coord(axis) + hi.coord(axis));
        assert(c.size >= 2 * (hi.coord(axis) - lo.coord(axis)));
    }
    lemma_narrow_at_root(c.size as int, c.den as int);
}

/// Cube nesting: a child's edge is exactly half its parent's, and its centre
/// differs from the parent's by exactly a quarter of the parent's edge along
/// each axis, towards the side of the child's octant.  The equalities are
/// those of the fractions, cross-multiplied.
pub proof fn lemma_cube_nesting(parent: Cube, o: int)
    requires
        parent.wf(),
        4 * parent.den <= DEN_MAX,
        0 <= o < 8,
    ensures
        parent.nests(parent.child(o), o),
        parent.child(o).wf(),
        2 * parent.child(o).size * parent.den == parent.size * parent.child(o).den,
        forall|axis: int|
            0 <= axis < 3 ==> 4 * (#[trigger] parent.child(o).center(axis) * parent.den
                - parent.center(axis) * parent.child(o).den) == octant_sign(o, axis) * parent.size
                * parent.child(o).den,
{
    reveal(Cube::nests);
    let c = parent.child(o);
    let s = parent.size as int;
    let d = parent.den as int;
    assert(parent.center(0) == parent.cx && parent.center(1) == parent.cy && parent.center(2)
        == parent.cz);
    assert(c.size == 2 * s && c.den == 4 * d);
    assert(c.cx == 4 * parent.cx + octant_sign(o, 0) * s);
    assert(c.cy == 4 * parent.cy + octant_sign(o, 1) * s);
    assert(c.cz == 4 * parent.cz + octant_sign(o, 2) * s);
    assert(c.center(0) == c.cx && c.center(1) == c.cy && c.center(2) == c.cz);
    assert(c.wf());
    assert(2 * (2 * s) * d == s * (4 * d)) by (nonlinear_arith);
    assert forall|axis: int| 0 <= axis < 3 implies 4 * (#[trigger] c.center(axis) * d
        - parent.center(axis) * c.den) == octant_sign(o, axis) * s * c.den by {
        let k = octant_sign(o, axis);
        let pc = parent.center(axis);
        assert(c.center(axis) == 4 * pc + k * s);
        assert(4 * ((4 * pc + k * s) * d - pc * (4 * d)) == k * s * (4 * d)) by (nonlinear_arith);
    }
}

} // verus!
