use octree::geometry::{Cube, Point};
use octree::incremental::{AddError, IncrementalOctree, DEFAULT_CAPACITY};
use octree::iterators::down::IntoDownIterator;
use octree::iterators::growing::{GrowingElement, GrowingNode};
use octree::iterators::up::IntoUpIterator;
use octree::types::Index;
use rand::distributions::Uniform;
use rand::{thread_rng, Rng};

/// The points of a leaf, in the order they came.
fn leaf_points(tree: &IncrementalOctree, r: usize) -> Vec<Point> {
    let k = r.points_block();
    let at = tree.capacity * k;
    tree.points[at..at + tree.fill[k]].to_vec()
}

/// Walks the subtree under stem `s`, checks it, and returns its points.
fn check(tree: &IncrementalOctree, s: usize, cube: Cube, level: u32, seen: &mut Vec<usize>) -> Vec<Point> {
    assert!(level < 32);
    let mut all = Vec::new();
    for o in 0..8 {
        let r = tree.nodes[8 * s + o];
        if r.is_empty() {
            continue;
        }
        assert!(!seen.contains(&r));
        seen.push(r);
        let below = if r.is_leaf() {
            let points = leaf_points(tree, r);
            assert!(!points.is_empty() && points.len() <= tree.capacity);
            points
        } else {
            let (block, child) = r.to_tuple();
            assert_eq!(child, 0);
            assert!(block > s);
            let points = check(tree, block, cube.child_cube(o), level + 1, seen);
            assert!(points.len() > tree.capacity);
            assert_eq!(points.len(), tree.counts[block]);
            points
        };
        for p in &below {
            assert_eq!(cube.octant(p), o);
        }
        all.extend(below);
    }
    assert_eq!(all.len(), tree.counts[s]);
    all
}

fn check_whole(tree: &IncrementalOctree, added: &[Point]) {
    let mut seen = Vec::new();
    let mut held = check(tree, 0, tree.bounds, 0, &mut seen);
    assert_eq!(tree.len(), added.len());
    let mut want = added.to_vec();
    let key = |p: &Point| (p.x, p.y, p.z);
    held.sort_by_key(key);
    want.sort_by_key(key);
    assert_eq!(held, want);
}

#[test]
fn a_new_tree_is_empty() {
    let tree = IncrementalOctree::default(Point::new(1, 2, 3), 10);
    assert_eq!(tree.len(), 0);
    assert_eq!(tree.capacity, DEFAULT_CAPACITY);
    assert_eq!(tree.capacity, 5);
    assert_eq!(tree.bounds, Cube::new(Point::new(1, 2, 3), 10));
    assert_eq!(tree.nodes.len(), 8);
    assert!(tree.nodes.iter().all(|r| r.is_empty()));
    let tree = IncrementalOctree::with_capacity(Point::new(0, 0, 0), 4, 2);
    assert_eq!(tree.capacity, 2);
    assert_eq!(tree.len(), 0);
}

#[test]
fn seven_points_split_the_positive_octant_twice() {
    // a cube of edge 2 around the origin, on a lattice of thousandths: the points
    // -0.1, 0.1, 0.15, 0.2, 0.3, 0.35 and 0.4 along the diagonal
    let mut tree = IncrementalOctree::with_capacity(Point::new(0, 0, 0), 2000, 5);
    let coords = [-100, 100, 150, 200, 300, 350, 400];
    let mut added = Vec::new();
    for c in coords {
        let p = Point::new(c, c, c);
        assert_eq!(tree.add(p), Ok(()));
        added.push(p);
    }
    assert_eq!(tree.len(), 7);
    assert_eq!(tree.counts[0], 7);
    check_whole(&tree, &added);

    // the negative octant is still a leaf with the one point
    let low = tree.nodes[0];
    assert!(low.is_leaf() && !low.is_empty());
    assert_eq!(leaf_points(&tree, low), vec![Point::new(-100, -100, -100)]);
    for o in 1..7 {
        assert!(tree.nodes[o].is_empty());
    }

    // the positive octant is a stem over one more stem
    let high = tree.nodes[7];
    assert!(!high.is_leaf());
    let first = high.node_block();
    assert_eq!(tree.counts[first], 6);
    for o in 1..8 {
        assert!(tree.nodes[8 * first + o].is_empty());
    }
    let next = tree.nodes[8 * first];
    assert!(!next.is_leaf());
    let second = next.node_block();
    assert_eq!(tree.counts[second], 6);

    // which parts the six points three and three
    for o in 1..7 {
        assert!(tree.nodes[8 * second + o].is_empty());
    }
    let near = tree.nodes[8 * second];
    let far = tree.nodes[8 * second + 7];
    assert!(near.is_leaf() && !near.is_empty());
    assert!(far.is_leaf() && !far.is_empty());
    assert_eq!(
        leaf_points(&tree, near),
        vec![Point::new(100, 100, 100), Point::new(150, 150, 150), Point::new(200, 200, 200)]
    );
    assert_eq!(
        leaf_points(&tree, far),
        vec![Point::new(300, 300, 300), Point::new(350, 350, 350), Point::new(400, 400, 400)]
    );
    assert_eq!(tree.counts.len(), 3);
}

#[test]
fn a_point_outside_the_cube_is_turned_away() {
    let mut tree = IncrementalOctree::default(Point::new(0, 0, 0), 10);
    assert_eq!(tree.add(Point::new(6, 0, 0)), Err(AddError::OutOfBounds));
    assert_eq!(tree.add(Point::new(0, -6, 0)), Err(AddError::OutOfBounds));
    assert_eq!(tree.add(Point::new(0, 0, 100)), Err(AddError::OutOfBounds));
    assert_eq!(tree.len(), 0);
    assert!(tree.nodes.iter().all(|r| r.is_empty()));
    // the faces belong to the cube
    assert_eq!(tree.add(Point::new(5, 5, 5)), Ok(()));
    assert_eq!(tree.add(Point::new(-5, -5, -5)), Ok(()));
    assert_eq!(tree.len(), 2);
}

#[test]
fn points_at_one_place_fill_one_leaf_and_no_more() {
    let mut tree = IncrementalOctree::with_capacity(Point::new(0, 0, 0), 100, 3);
    let p = Point::new(7, -7, 7);
    for _ in 0..3 {
        assert_eq!(tree.add(p), Ok(()));
    }
    let nodes = tree.nodes.clone();
    let fill = tree.fill.clone();
    assert_eq!(tree.add(p), Err(AddError::MaxDepthExceeded));
    assert_eq!(tree.len(), 3);
    assert_eq!(tree.nodes, nodes);
    assert_eq!(tree.fill, fill);
    // another point still finds its place, next to them if need be
    assert_eq!(tree.add(Point::new(7, -7, 8)), Ok(()));
    assert_eq!(tree.len(), 4);
    assert_eq!(tree.add(p), Err(AddError::MaxDepthExceeded));
    check_whole(&tree, &[p, p, p, Point::new(7, -7, 8)]);
}

#[test]
fn neighbours_part_only_at_the_deepest_level() {
    let mut tree = IncrementalOctree::with_capacity(Point::new(0, 0, 0), u32::MAX, 1);
    let a = Point::new(1_000_000, 1_000_000, 1_000_000);
    let b = Point::new(1_000_000, 1_000_000, 1_000_001);
    assert_eq!(tree.add(a), Ok(()));
    assert_eq!(tree.add(b), Ok(()));
    assert_eq!(tree.len(), 2);
    check_whole(&tree, &[a, b]);
    assert_eq!(tree.counts.len(), 32);
}

#[test]
fn adding_keeps_the_tree_sound() {
    for capacity in [1usize, 2, 5, 16] {
        let mut tree = IncrementalOctree::with_capacity(Point::new(0, 0, 0), 1 << 16, capacity);
        let mut rng = thread_rng();
        let side = Uniform::new(-(1 << 15), 1 << 15);
        let mut added = Vec::new();
        for i in 0..2000 {
            let p = Point::new(rng.sample(side), rng.sample(side), rng.sample(side));
            assert!(tree.has_space());
            assert_eq!(tree.add(p), Ok(()));
            added.push(p);
            assert_eq!(tree.len(), i + 1);
            if i % 250 == 0 {
                check_whole(&tree, &added);
            }
        }
        check_whole(&tree, &added);
    }
}

#[test]
fn a_full_leaf_gives_way_to_a_stem() {
    let mut tree = IncrementalOctree::with_capacity(Point::new(0, 0, 0), 16, 2);
    assert_eq!(tree.add(Point::new(1, 1, 1)), Ok(()));
    assert_eq!(tree.add(Point::new(7, 7, 7)), Ok(()));
    assert!(tree.nodes[7].is_leaf());
    assert_eq!(tree.counts.len(), 1);
    assert_eq!(tree.add(Point::new(5, 1, 1)), Ok(()));
    let r = tree.nodes[7];
    assert!(!r.is_leaf());
    assert_eq!(r, usize::node_idx(1, 0));
    assert_eq!(tree.counts, vec![3, 3]);
    // the cube of the new stem has its centre at (4, 4, 4)
    assert_eq!(leaf_points(&tree, tree.nodes[8]), vec![Point::new(1, 1, 1)]);
    assert_eq!(leaf_points(&tree, tree.nodes[8 + 7]), vec![Point::new(7, 7, 7)]);
    assert_eq!(leaf_points(&tree, tree.nodes[8 + 4]), vec![Point::new(5, 1, 1)]);
}

fn seven() -> IncrementalOctree {
    let mut tree = IncrementalOctree::with_capacity(Point::new(0, 0, 0), 2000, 5);
    for c in [-100, 100, 150, 200, 300, 350, 400] {
        assert_eq!(tree.add(Point::new(c, c, c)), Ok(()));
    }
    tree
}

#[test]
fn down_walk_over_a_growing_tree() {
    let tree = seven();
    let mut iter = tree.iter_down();
    let mut seen = Vec::new();
    while let Some(node) = iter.next() {
        seen.push(node);
    }
    assert!(iter.next().is_none());
    // root, its last child with the two stems and the two leaves, its first child
    assert_eq!(seen.len(), 6);
    let root = tree.bounds;
    let high = root.child_cube(7);
    let deep = high.child_cube(0);
    match seen[0] {
        GrowingNode::Stem { stem, cube, count } => {
            assert_eq!((stem, cube, count), (0, root, 7));
        }
        _ => panic!("a stem was expected"),
    }
    match seen[1] {
        GrowingNode::Stem { stem, cube, count } => {
            assert_eq!((stem, cube, count), (1, high, 6));
        }
        _ => panic!("a stem was expected"),
    }
    match seen[2] {
        GrowingNode::Stem { stem, cube, count } => {
            assert_eq!((stem, cube, count), (2, deep, 6));
        }
        _ => panic!("a stem was expected"),
    }
    match seen[3] {
        GrowingNode::Leaf { cube, count, .. } => {
            assert_eq!((cube, count), (deep.child_cube(7), 3));
        }
        _ => panic!("a leaf was expected"),
    }
    match seen[4] {
        GrowingNode::Leaf { cube, count, .. } => {
            assert_eq!((cube, count), (deep.child_cube(0), 3));
        }
        _ => panic!("a leaf was expected"),
    }
    match seen[5] {
        GrowingNode::Leaf { cube, count, .. } => {
            assert_eq!((cube, count), (root.child_cube(0), 1));
        }
        _ => panic!("a leaf was expected"),
    }
}

#[test]
fn up_walk_over_a_growing_tree() {
    let tree = seven();
    let mut iter = tree.iter_up();
    let mut kinds = Vec::new();
    while let Some(node) = iter.next() {
        kinds.push(match node {
            GrowingNode::Stem { stem, count, .. } => (true, stem, count),
            GrowingNode::Leaf { block, count, .. } => {
                (false, block, count)
            }
        });
    }
    assert!(iter.next().is_none());
    assert_eq!(kinds.len(), 6);
    assert_eq!((kinds[0].0, kinds[0].2), (false, 3));
    assert_eq!((kinds[1].0, kinds[1].2), (false, 3));
    assert_eq!(kinds[2], (true, 2, 6));
    assert_eq!(kinds[3], (true, 1, 6));
    assert_eq!((kinds[4].0, kinds[4].2), (false, 1));
    assert_eq!(kinds[5], (true, 0, 7));
}

#[test]
fn element_walk_over_a_growing_tree() {
    let tree = seven();
    let mut iter = tree.iter_elements();
    let mut points = Vec::new();
    let mut shape = String::new();
    while let Some(e) = iter.next() {
        match e {
            GrowingElement::Node { .. } => shape.push('n'),
            GrowingElement::Point { point } => {
                shape.push('p');
                points.push(point.x);
            }
        }
    }
    assert!(iter.next().is_none());
    assert_eq!(shape, "nnnpppnpppnpn");
    assert_eq!(points, vec![300, 350, 400, 100, 150, 200, -100]);
}

#[test]
fn walks_over_a_growing_tree_agree() {
    let mut tree = IncrementalOctree::with_capacity(Point::new(0, 0, 0), 1 << 12, 3);
    let mut rng = thread_rng();
    let side = Uniform::new(-(1 << 11), 1 << 11);
    for _ in 0..500 {
        let p = Point::new(rng.sample(side), rng.sample(side), rng.sample(side));
        assert_eq!(tree.add(p), Ok(()));
    }
    let mut down = tree.iter_down();
    let mut up = tree.iter_up();
    let mut n_down = 0;
    let mut under_leaves = 0;
    while let Some(node) = down.next() {
        n_down += 1;
        if let GrowingNode::Leaf { count, .. } = node {
            under_leaves += count;
        }
    }
    let mut n_up = 0;
    while up.next().is_some() {
        n_up += 1;
    }
    assert_eq!(n_down, n_up);
    assert_eq!(under_leaves, 500);
    let mut elements = tree.iter_elements();
    let mut n_points = 0;
    let mut n_nodes = 0;
    while let Some(e) = elements.next() {
        match e {
            GrowingElement::Node { .. } => n_nodes += 1,
            GrowingElement::Point { .. } => n_points += 1,
        }
    }
    assert_eq!(n_points, 500);
    assert_eq!(n_nodes, n_down);
}

#[test]
fn a_point_goes_to_the_end_of_its_leaf_and_leaves_the_others_alone() {
    let mut tree = IncrementalOctree::with_capacity(Point::new(0, 0, 0), 100, 3);
    assert_eq!(tree.add(Point::new(10, 10, 10)), Ok(()));
    assert_eq!(tree.add(Point::new(-10, -10, -10)), Ok(()));
    assert_eq!(tree.add(Point::new(20, 20, 20)), Ok(()));
    let high = tree.nodes[7];
    let low = tree.nodes[0];
    assert_eq!(leaf_points(&tree, high), vec![Point::new(10, 10, 10), Point::new(20, 20, 20)]);
    assert_eq!(leaf_points(&tree, low), vec![Point::new(-10, -10, -10)]);
    assert_eq!(tree.add(Point::new(5, 5, 5)), Ok(()));
    assert_eq!(tree.nodes[7], high);
    assert_eq!(tree.nodes[0], low);
    assert_eq!(
        leaf_points(&tree, high),
        vec![Point::new(10, 10, 10), Point::new(20, 20, 20), Point::new(5, 5, 5)]
    );
    assert_eq!(leaf_points(&tree, low), vec![Point::new(-10, -10, -10)]);
    // the leaf is full now: the next point makes it give way to a stem
    let block = high.points_block();
    assert_eq!(tree.add(Point::new(30, 30, 30)), Ok(()));
    assert_eq!(tree.fill[block], 0);
    assert_eq!(tree.nodes[7], usize::node_idx(1, 0));
    assert_eq!(leaf_points(&tree, low), vec![Point::new(-10, -10, -10)]);
    assert_eq!(
        leaf_points(&tree, tree.nodes[8]),
        vec![Point::new(10, 10, 10), Point::new(20, 20, 20), Point::new(5, 5, 5)]
    );
    assert_eq!(leaf_points(&tree, tree.nodes[8 + 7]), vec![Point::new(30, 30, 30)]);
}
