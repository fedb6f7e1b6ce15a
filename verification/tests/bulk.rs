use octree::geometry::{Cube, Point};
use octree::octree::Octree;
use rand::distributions::Uniform;
use rand::{thread_rng, Rng};

fn random_points(n: usize, spread: i32) -> Vec<Point> {
    let mut rng = thread_rng();
    let side = Uniform::new(-spread, spread);
    (0..n).map(|_| Point::new(rng.sample(side), rng.sample(side), rng.sample(side))).collect()
}

fn octant_of(cube: &Cube, p: &Point) -> usize {
    let mut o = 0;
    if !p.is_below(0, cube.pivot_at(0)) {
        o += 4;
    }
    if !p.is_below(1, cube.pivot_at(1)) {
        o += 2;
    }
    if !p.is_below(2, cube.pivot_at(2)) {
        o += 1;
    }
    o
}

/// Walks the subtree under `r`, checks that it is the octree of the
/// positions from `begin` on, and returns where its positions end, its depth
/// and the sizes of its leaves.
fn check(
    tree: &Octree,
    r: u32,
    cube: Cube,
    begin: u32,
    levels: u32,
    bucket: u32,
    sizes: &mut Vec<u32>,
) -> (u32, u32) {
    if r & 0x8000_0000 != 0 {
        let leaf = &tree.leafs[(r & 0x7fff_ffff) as usize];
        assert_eq!(leaf.begin, begin);
        assert!(leaf.begin <= leaf.end);
        assert!(levels == 0 || leaf.end - leaf.begin <= bucket);
        sizes.push(leaf.end - leaf.begin);
        return (leaf.end, 0);
    }
    assert!(levels > 0);
    let stem = &tree.stems[r as usize];
    let mut at = begin;
    let mut depth = 0;
    for o in 0..8 {
        let child = stem.childs_idx[o];
        if child & 0x8000_0000 == 0 {
            assert!(child < r);
        }
        let (end, d) = check(tree, child, cube.child_cube(o), at, levels - 1, bucket, sizes);
        for i in at..end {
            assert_eq!(octant_of(&cube, tree.get_point(i)), o);
        }
        at = end;
        depth = depth.max(d + 1);
    }
    assert!(at - begin > bucket);
    (at, depth)
}

fn check_whole(tree: &Octree, points: &[Point], levels: u32, bucket: u32) -> (u32, Vec<u32>) {
    assert_eq!(tree.points, points);
    assert_eq!(tree.bounds, Cube::bounding(points));
    let mut seen = tree.indices.clone();
    seen.sort();
    assert_eq!(seen, (0..(points.len() as u32)).collect::<Vec<u32>>());
    let mut sizes = Vec::new();
    let (end, depth) = check(tree, tree.root, tree.bounds, 0, levels, bucket, &mut sizes);
    assert_eq!(end as usize, points.len());
    assert_eq!(tree.len(), points.len());
    assert_eq!(sizes.iter().sum::<u32>() as usize, tree.len());
    assert_eq!(sizes.len(), tree.leafs.len());
    (depth, sizes)
}

#[test]
fn fixed_depth_zero_is_a_single_leaf() {
    let points = random_points(50, 1000);
    let tree = Octree::fixed_depth(&points, 0);
    assert_eq!(tree.root, 0x8000_0000);
    assert_eq!(tree.stems.len(), 0);
    assert_eq!(tree.leafs.len(), 1);
    assert_eq!((tree.leafs[0].begin, tree.leafs[0].end), (0, 50));
    assert_eq!(tree.indices, (0..50).collect::<Vec<u32>>());
}

#[test]
fn fixed_depth_of_nothing_and_of_one_point() {
    let tree = Octree::fixed_depth(&[], 5);
    assert_eq!(tree.root, 0x8000_0000);
    assert_eq!((tree.leafs[0].begin, tree.leafs[0].end), (0, 0));
    assert_eq!(tree.bounds.size, 0);

    let tree = Octree::fixed_depth(&[Point::new(1, 2, 3)], 5);
    assert_eq!(tree.root, 0x8000_0000);
    assert_eq!((tree.leafs[0].begin, tree.leafs[0].end), (0, 1));
    assert_eq!(tree.bounds.size, 0);
}

#[test]
fn fixed_depth_one_over_two_points() {
    let points = vec![Point::new(0, 0, 0), Point::new(10, 10, 10)];
    let tree = Octree::fixed_depth(&points, 1);
    assert_eq!(tree.root, 0);
    assert_eq!(tree.stems.len(), 1);
    assert_eq!(tree.leafs.len(), 8);
    for o in 0..8 {
        assert_eq!(tree.stems[0].childs_idx[o], 0x8000_0000 | o as u32);
    }
    assert_eq!((tree.leafs[0].begin, tree.leafs[0].end), (0, 1));
    for o in 1..7 {
        assert_eq!((tree.leafs[o].begin, tree.leafs[o].end), (1, 1));
    }
    assert_eq!((tree.leafs[7].begin, tree.leafs[7].end), (1, 2));
    assert_eq!(tree.indices, vec![0, 1]);
}

#[test]
fn fixed_depth_is_the_octree_of_the_points() {
    for depth in 0..6 {
        for n in [0usize, 1, 2, 9, 100, 1000] {
            let points = random_points(n, 1 << 20);
            let tree = Octree::fixed_depth(&points, depth);
            let (deep, _) = check_whole(&tree, &points, depth, 1);
            assert!(deep <= depth);
        }
    }
}

#[test]
fn fixed_depth_reaches_its_depth_on_points_hard_to_part() {
    // two points next to each other far from a third: the first cuts do not part them
    let points =
        vec![Point::new(0, 0, 0), Point::new(1, 1, 1), Point::new(1 << 20, 1 << 20, 1 << 20)];
    let tree = Octree::fixed_depth(&points, 4);
    let (deep, _) = check_whole(&tree, &points, 4, 1);
    assert_eq!(deep, 4);
}

#[test]
fn fixed_depth_beyond_the_limit_stops_at_the_limit() {
    let points = vec![Point::new(7, 7, 7), Point::new(7, 7, 7), Point::new(0, 0, 0)];
    let tree = Octree::fixed_depth(&points, 1000);
    let (deep, sizes) = check_whole(&tree, &points, 32, 1);
    assert_eq!(deep, 32);
    assert_eq!(*sizes.iter().max().unwrap(), 2);
}

#[test]
fn variable_depth_keeps_every_leaf_within_the_bucket() {
    for bucket in [0u32, 1, 5, 16] {
        for n in [0usize, 1, 6, 100, 2000] {
            let points = random_points(n, 1 << 16);
            let tree = Octree::variable_depth(&points, bucket);
            let (deep, sizes) = check_whole(&tree, &points, 32, bucket);
            if deep < 32 {
                assert!(sizes.iter().all(|&s| s <= bucket));
            }
        }
    }
}

#[test]
fn variable_depth_with_room_for_all_is_a_single_leaf() {
    let points = random_points(5, 100);
    let tree = Octree::variable_depth(&points, 5);
    assert_eq!(tree.root, 0x8000_0000);
    assert_eq!(tree.leafs.len(), 1);
    let tree = Octree::variable_depth(&points, 4);
    assert_eq!(tree.stems.is_empty(), false);
}

#[test]
fn variable_depth_keeps_coincident_points_together_at_the_limit() {
    let mut points = vec![Point::new(3, -3, 3); 10];
    points.push(Point::new(100, 100, 100));
    let tree = Octree::variable_depth(&points, 2);
    let (deep, sizes) = check_whole(&tree, &points, 32, 2);
    assert_eq!(deep, 32);
    assert_eq!(*sizes.iter().max().unwrap(), 10);
    assert_eq!(sizes.iter().filter(|&&s| s > 2).count(), 1);
}

#[test]
fn building_twice_gives_the_same_tree() {
    let points = random_points(3000, 1 << 18);
    let a = Octree::variable_depth(&points, 5);
    let b = Octree::variable_depth(&points, 5);
    assert_eq!(a.root, b.root);
    assert_eq!(a.stems.len(), b.stems.len());
    for (x, y) in a.stems.iter().zip(b.stems.iter()) {
        assert_eq!(x.childs_idx, y.childs_idx);
    }
    assert_eq!(a.leafs.len(), b.leafs.len());
    for (x, y) in a.leafs.iter().zip(b.leafs.iter()) {
        assert_eq!((x.begin, x.end), (y.begin, y.end));
    }
    assert_eq!(a.indices, b.indices);
    assert_eq!(a.bounds, b.bounds);

    let a = Octree::fixed_depth(&points, 4);
    let b = Octree::fixed_depth(&points, 4);
    assert_eq!(a.root, b.root);
    assert_eq!(a.indices, b.indices);
    assert_eq!(a.stems.len(), b.stems.len());
    assert_eq!(a.leafs.len(), b.leafs.len());
}

#[test]
fn the_stem_is_stored_after_its_children() {
    let points = random_points(500, 1 << 10);
    let tree = Octree::variable_depth(&points, 3);
    assert_eq!(tree.root as usize, tree.stems.len() - 1);
    for (s, stem) in tree.stems.iter().enumerate() {
        for child in stem.childs_idx {
            if child & 0x8000_0000 == 0 {
                assert!((child as usize) < s);
            } else {
                assert!(((child & 0x7fff_ffff) as usize) < tree.leafs.len());
            }
        }
    }
}

#[test]
fn can_build_counts_the_nodes_a_build_may_need() {
    assert!(Octree::can_build(0, 0, 0));
    assert!(Octree::can_build(0x7fff_ffff, 0, 1));
    assert!(!Octree::can_build(0x8000_0000, 0, 1));
    // 1 + 8 * 32 * n nodes at most with buckets of no point
    assert!(Octree::can_build(8_388_607, 32, 0));
    assert!(!Octree::can_build(8_388_608, 32, 0));
    // a depth beyond the limit counts as the limit
    assert!(Octree::can_build(8_388_607, 1000, 0));
    assert!(!Octree::can_build(8_388_608, 1000, 0));
    // 1 + 8 * 6 * (n / 2) with at most one point to a leaf, six levels deep
    assert!(Octree::can_build(89_478_485, 6, 1));
    assert!(!Octree::can_build(89_478_486, 6, 1));
    // 1 + 8 * 32 * (n / 6) with buckets of five
    assert!(Octree::can_build(50_000_000, 32, 5));
    assert!(Octree::can_build(50_331_647, 32, 5));
    assert!(!Octree::can_build(50_331_648, 32, 5));
}

#[test]
fn leaf_references_carry_the_tag() {
    assert_eq!(Octree::make_leaf_ref(0), 0x8000_0000);
    assert_eq!(Octree::make_leaf_ref(5), 0x8000_0005);
    assert_eq!(Octree::leaf_number(0x8000_0005), 5);
    assert_eq!(Octree::leaf_number(0xffff_ffff), 0x7fff_ffff);
    assert!(Octree::is_stem(0));
    assert!(Octree::is_stem(0x7fff_ffff));
    assert!(!Octree::is_stem(0x8000_0000));
}

#[test]
fn leaves_own_ranges_one_after_the_other() {
    let points = random_points(1000, 1 << 10);
    let tree = Octree::variable_depth(&points, 3);
    let mut at = 0;
    for leaf in &tree.leafs {
        assert_eq!(leaf.begin, at);
        assert!(leaf.begin <= leaf.end);
        at = leaf.end;
    }
    assert_eq!(at, 1000);
}

#[test]
fn a_single_leaf_keeps_the_points_in_their_order() {
    let points = vec![Point::new(0, 0, 0), Point::new(1, 1, 1), Point::new(2, 2, 2)];
    let tree = Octree::fixed_depth(&points, 0);
    assert!(tree.stems.is_empty());
    assert_eq!(tree.leafs.len(), 1);
    assert_eq!((tree.leafs[0].begin, tree.leafs[0].end), (0, 3));
    assert_eq!(tree.root, 0x8000_0000);
    assert_eq!(tree.indices, vec![0, 1, 2]);
    // centre (1, 1, 1), edge 2, over the denominator 2
    let b = tree.bounds;
    assert_eq!((b.cx, b.cy, b.cz, b.size, b.den), (2, 2, 2, 4, 2));

    let points = vec![Point::new(-1, -1, -1), Point::new(1, 1, 1)];
    let tree = Octree::variable_depth(&points, 2);
    assert!(tree.stems.is_empty());
    assert_eq!(tree.leafs.len(), 1);
    assert_eq!((tree.leafs[0].begin, tree.leafs[0].end), (0, 2));
    assert_eq!(tree.root, 0x8000_0000);
    assert_eq!(tree.indices, vec![0, 1]);
    let b = tree.bounds;
    assert_eq!((b.cx, b.cy, b.cz, b.size, b.den), (0, 0, 0, 4, 2));
}

#[test]
fn node_count_is_the_number_of_nodes_a_build_stores() {
    let points = random_points(500, 1000);
    for (depth, bucket) in [(0u32, 1u32), (1, 1), (3, 1), (32, 1), (32, 4), (32, 600), (1000, 7)] {
        let tree = if bucket == 1 {
            Octree::fixed_depth(&points, depth)
        } else {
            Octree::variable_depth(&points, bucket)
        };
        let levels = if bucket == 1 { depth } else { 32 };
        let nodes = (tree.stems.len() + tree.leafs.len()) as u32;
        assert_eq!(Octree::node_count(&points, levels, bucket, u32::MAX), Some(nodes));
        assert_eq!(Octree::node_count(&points, levels, bucket, nodes), Some(nodes));
        assert_eq!(Octree::node_count(&points, levels, bucket, nodes - 1), None);
        assert!(Octree::fits(&points, levels, bucket));
    }
}

#[test]
fn node_count_of_small_trees() {
    assert_eq!(Octree::node_count(&[], 5, 1, 10), Some(1));
    assert_eq!(Octree::node_count(&[], 5, 1, 0), None);
    let two = [Point { x: 0, y: 0, z: 0 }, Point { x: 4, y: 4, z: 4 }];
    // one stem over eight leaves
    assert_eq!(Octree::node_count(&two, 1, 1, 9), Some(9));
    assert_eq!(Octree::node_count(&two, 1, 1, 8), None);
    assert_eq!(Octree::node_count(&two, 0, 1, 8), Some(1));
    assert_eq!(Octree::node_count(&two, 7, 2, 8), Some(1));
    // two points at one place are parted on no level: a stem on each
    let twins = [Point { x: 3, y: 3, z: 3 }, Point { x: 3, y: 3, z: 3 }];
    assert_eq!(Octree::node_count(&twins, 4, 1, 100), Some(33));
    assert_eq!(Octree::node_count(&twins, 1000, 1, 1000), Some(257));
}

#[test]
fn what_the_count_of_the_points_allows_fits() {
    let points = random_points(300, 50);
    assert!(Octree::can_build(points.len(), 32, 1));
    assert!(Octree::fits(&points, 32, 1));
    assert!(Octree::fits(&[], 0, 0));
}
