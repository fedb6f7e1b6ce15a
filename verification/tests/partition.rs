use glam::{vec3, Vec3};
use octree::geometry::{Cube, Point, Scalar};
use octree::octree::Octree;
use rand::distributions::Uniform;
use rand::{thread_rng, Rng};

fn random_points(n: usize) -> Vec<Vec3> {
    let mut rng = thread_rng();
    let side = Uniform::new(-1.0f32, 1.0f32);

    (0..n)
        .map(|_| vec3(rng.sample(side), rng.sample(side), rng.sample(side)))
        .collect()
}

fn to_lattice(points: &[Vec3]) -> Vec<Point> {
    points
        .iter()
        .map(|p| {
            Point::new(
                (p.x * 1048576.0).floor() as i32,
                (p.y * 1048576.0).floor() as i32,
                (p.z * 1048576.0).floor() as i32,
            )
        })
        .collect()
}

fn test_split<const DIM: usize>(n: usize) {
    let points = to_lattice(&random_points(n));
    let mut tree = Octree::with_points(&points);

    let pivot = tree.split::<DIM>(0, n as u32, Scalar::from_int(0)) as usize;

    assert!(pivot <= n);
    for i in 0..(pivot as u32) {
        assert!(tree.get_point(i).get(DIM) < 0);
    }
    for i in (pivot as u32)..(n as u32) {
        assert!(tree.get_point(i).get(DIM) >= 0);
    }
    let mut seen = tree.indices.clone();
    seen.sort();
    assert_eq!(seen, (0..(n as u32)).collect::<Vec<u32>>());
}

#[test]
fn octree_split() {
    for _ in 0..16 {
        for n in [0, 1, 7, 8, 15, 16, 128, 135] {
            test_split::<0>(n);
            test_split::<1>(n);
            test_split::<2>(n);
        }
    }
}

#[test]
fn split_sends_ties_up() {
    let points = vec![
        Point::new(5, 0, 0),
        Point::new(0, 0, 0),
        Point::new(-1, 0, 0),
        Point::new(0, 0, 0),
        Point::new(-7, 0, 0),
    ];
    let mut tree = Octree::with_points(&points);
    let mid = tree.split::<0>(0, 5, Scalar::from_int(0));
    assert_eq!(mid, 2);
    let mut low = vec![tree.indices[0], tree.indices[1]];
    low.sort();
    assert_eq!(low, vec![2, 4]);
    let mut high = vec![tree.indices[2], tree.indices[3], tree.indices[4]];
    high.sort();
    assert_eq!(high, vec![0, 1, 3]);
}

#[test]
fn split_of_a_part_leaves_the_rest() {
    let points = vec![
        Point::new(3, 0, 0),
        Point::new(-3, 0, 0),
        Point::new(2, 0, 0),
        Point::new(-2, 0, 0),
        Point::new(1, 0, 0),
        Point::new(-1, 0, 0),
    ];
    let mut tree = Octree::with_points(&points);
    let mid = tree.split::<0>(2, 5, Scalar::from_int(0));
    assert_eq!(mid, 3);
    assert_eq!(tree.indices[0], 0);
    assert_eq!(tree.indices[1], 1);
    assert_eq!(tree.indices[2], 3);
    assert_eq!(tree.indices[5], 5);
}

#[test]
fn split_with_a_fraction_as_pivot() {
    let points = vec![Point::new(1, 0, 0), Point::new(0, 0, 0), Point::new(2, 0, 0)];
    let mut tree = Octree::with_points(&points);
    // pivot 3/2: 0 and 1 lie below, 2 above
    let mid = tree.split::<0>(0, 3, Scalar { num: 3, den: 2 });
    assert_eq!(mid, 2);
    assert_eq!(tree.indices[2], 2);
}

#[test]
fn split_of_an_empty_range_returns_begin() {
    let points = vec![Point::new(1, 0, 0), Point::new(-1, 0, 0)];
    let mut tree = Octree::with_points(&points);
    assert_eq!(tree.split::<0>(1, 1, Scalar::from_int(0)), 1);
    assert_eq!(tree.split::<0>(2, 1, Scalar::from_int(0)), 2);
    assert_eq!(tree.indices, vec![0, 1]);
}

#[test]
fn split_all_below_and_all_above() {
    let points = vec![Point::new(1, 0, 0), Point::new(2, 0, 0), Point::new(3, 0, 0)];
    let mut tree = Octree::with_points(&points);
    assert_eq!(tree.split::<0>(0, 3, Scalar::from_int(10)), 3);
    assert_eq!(tree.split::<0>(0, 3, Scalar::from_int(1)), 0);
    assert_eq!(tree.split::<0>(0, 3, Scalar::from_int(-4)), 0);
}

#[test]
fn subdivide_orders_the_octants() {
    let points = vec![
        Point::new(1, 1, 1),
        Point::new(-1, -1, -1),
        Point::new(1, -1, 1),
        Point::new(-1, 1, -1),
        Point::new(1, 1, -1),
        Point::new(-1, -1, 1),
        Point::new(1, -1, -1),
        Point::new(-1, 1, 1),
        Point::new(0, 0, 0),
    ];
    let mut tree = Octree::with_points(&points);
    let cube = Cube::new(Point::new(0, 0, 0), 4);
    let sub = tree.subdivide(0, 9, cube);
    assert_eq!(sub.delimiter, [0, 1, 2, 3, 4, 5, 6, 7, 9]);
    assert_eq!(&tree.indices[0..7], &[1, 5, 3, 7, 6, 2, 4]);
    let mut last = vec![tree.indices[7], tree.indices[8]];
    last.sort();
    assert_eq!(last, vec![0, 8]);
}
