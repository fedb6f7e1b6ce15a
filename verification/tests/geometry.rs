use octree::geometry::{Cube, Point, Scalar};
use octree::iterators::subdivide::{Subdivide, Subspace};

#[test]
fn component_wise_min_and_max() {
    let a = Point::new(1, -5, 7);
    let b = Point::new(-2, 3, 7);
    assert_eq!(a.min(b), Point::new(-2, -5, 7));
    assert_eq!(a.max(b), Point::new(1, 3, 7));
    assert_eq!(a.get(0), 1);
    assert_eq!(a.get(1), -5);
    assert_eq!(a.get(2), 7);
}

#[test]
fn is_below_compares_exactly() {
    let p = Point::new(3, -3, i32::MAX);
    assert!(p.is_below(0, Scalar { num: 7, den: 2 }));
    assert!(!p.is_below(0, Scalar { num: 6, den: 2 }));
    assert!(!p.is_below(0, Scalar { num: 5, den: 2 }));
    assert!(p.is_below(1, Scalar { num: -5, den: 2 }));
    assert!(!p.is_below(1, Scalar::from_int(-3)));
    assert!(!p.is_below(2, Scalar { num: i32::MAX as i128, den: 1 }));
    assert!(p.is_below(
        2,
        Scalar { num: (i32::MAX as i128) * 0x2_0000_0000_0000_0000 + 1, den: 0x2_0000_0000_0000_0000 }
    ));
}

#[test]
fn bounding_cube_of_nothing_and_of_one_point() {
    let none: Vec<Point> = vec![];
    let c = Cube::bounding(&none);
    assert_eq!(c.size, 0);
    assert_eq!((c.cx, c.cy, c.cz), (0, 0, 0));

    let one = vec![Point::new(3, -4, 5)];
    let c = Cube::bounding(&one);
    assert_eq!(c.size, 0);
    assert_eq!((c.cx, c.cy, c.cz, c.den), (6, -8, 10, 2));
}

#[test]
fn bounding_cube_is_the_midpoint_and_the_longest_side() {
    let points = vec![Point::new(0, 0, 0), Point::new(4, 2, 1), Point::new(1, -1, 1)];
    let c = Cube::bounding(&points);
    // centre (2, 1/2, 1/2), edge 4, over the denominator 2
    assert_eq!((c.cx, c.cy, c.cz, c.size, c.den), (4, 1, 1, 8, 2));
}

#[test]
fn bounding_cube_at_the_ends_of_the_lattice() {
    let points = vec![Point::new(i32::MIN, 0, 0), Point::new(i32::MAX, 0, 0)];
    let c = Cube::bounding(&points);
    assert_eq!(c.cx, -1);
    assert_eq!(c.size, 2 * 0xffff_ffffi128);
    assert_eq!(c.den, 2);
}

#[test]
fn child_cubes_halve_the_edge_and_move_by_a_quarter() {
    let c = Cube::new(Point::new(0, 0, 0), 2);
    // centre (-1/2, -1/2, -1/2), edge 1, over the denominator 4
    let low = c.child_cube(0);
    assert_eq!((low.cx, low.cy, low.cz, low.size, low.den), (-2, -2, -2, 4, 4));
    let high = c.child_cube(7);
    assert_eq!((high.cx, high.cy, high.cz, high.size, high.den), (2, 2, 2, 4, 4));
    let mixed = c.child_cube(5);
    assert_eq!((mixed.cx, mixed.cy, mixed.cz), (2, -2, 2));
    // one level further: centre (1/4, 1/4, 1/4), edge 1/2
    let deeper = high.child_cube(0);
    assert_eq!((deeper.cx, deeper.cy, deeper.cz, deeper.size, deeper.den), (4, 4, 4, 8, 16));
    for o in 0..8 {
        let k = c.child_cube(o);
        assert_eq!(2 * k.size * c.den, c.size * k.den);
        let off = Subdivide::offset(o);
        assert_eq!(4 * (k.cx * c.den - c.cx * k.den), (off.x as i128) * c.size * k.den);
        assert_eq!(4 * (k.cy * c.den - c.cy * k.den), (off.y as i128) * c.size * k.den);
        assert_eq!(4 * (k.cz * c.den - c.cz * k.den), (off.z as i128) * c.size * k.den);
    }
}

#[test]
fn pivot_at_gives_the_centre() {
    let c = Cube { cx: 3, cy: -5, cz: 7, size: 8, den: 4 };
    assert_eq!(c.pivot_at(0), Scalar { num: 3, den: 4 });
    assert_eq!(c.pivot_at(1), Scalar { num: -5, den: 4 });
    assert_eq!(c.pivot_at(2), Scalar { num: 7, den: 4 });
}

#[test]
fn offsets_follow_the_octant_bits() {
    assert_eq!(Subdivide::offset(0), Point::new(-1, -1, -1));
    assert_eq!(Subdivide::offset(1), Point::new(-1, -1, 1));
    assert_eq!(Subdivide::offset(2), Point::new(-1, 1, -1));
    assert_eq!(Subdivide::offset(3), Point::new(-1, 1, 1));
    assert_eq!(Subdivide::offset(4), Point::new(1, -1, -1));
    assert_eq!(Subdivide::offset(5), Point::new(1, -1, 1));
    assert_eq!(Subdivide::offset(6), Point::new(1, 1, -1));
    assert_eq!(Subdivide::offset(7), Point::new(1, 1, 1));
}

#[test]
fn subdivide_hands_out_eight_parts() {
    let cube = Cube::new(Point::new(0, 0, 0), 8);
    let mut sub = Subdivide { current: 0, delimiter: [0, 1, 3, 3, 4, 9, 9, 12, 20], cube };
    let mut parts: Vec<Subspace> = Vec::new();
    while let Some(part) = sub.next() {
        parts.push(part);
    }
    assert_eq!(parts.len(), 8);
    assert!(sub.next().is_none());
    assert_eq!((parts[0].begin, parts[0].end), (0, 1));
    assert_eq!((parts[2].begin, parts[2].end), (3, 3));
    assert_eq!((parts[7].begin, parts[7].end), (12, 20));
    for o in 0..8 {
        assert_eq!(parts[o].cube, cube.child_cube(o));
    }
}

#[test]
fn octants_and_containment() {
    let cube = Cube::new(Point::new(0, 0, 0), 8);
    assert_eq!(cube.octant(&Point::new(-1, -1, -1)), 0);
    assert_eq!(cube.octant(&Point::new(-1, -1, 0)), 1);
    assert_eq!(cube.octant(&Point::new(-1, 0, -1)), 2);
    assert_eq!(cube.octant(&Point::new(0, -1, -1)), 4);
    assert_eq!(cube.octant(&Point::new(0, 0, 0)), 7);
    assert!(cube.contains(&Point::new(4, -4, 4)));
    assert!(!cube.contains(&Point::new(5, 0, 0)));
    assert!(!cube.contains(&Point::new(0, 0, -5)));
    // centre (1/2, 1/2, 1/2), edge 1
    let half = Cube { cx: 1, cy: 1, cz: 1, size: 2, den: 2 };
    assert!(half.contains(&Point::new(0, 0, 0)));
    assert!(half.contains(&Point::new(1, 1, 1)));
    assert!(!half.contains(&Point::new(2, 1, 1)));
    assert_eq!(half.octant(&Point::new(0, 1, 0)), 2);
}
