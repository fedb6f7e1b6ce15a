use octree::geometry::{Cube, Point};
use octree::iterators::down::IntoDownIterator;
use octree::iterators::iter::IterNode;
use octree::iterators::tree::TreeElements;
use octree::iterators::up::IntoUpIterator;
use octree::octree::Octree;
use rand::distributions::Uniform;
use rand::{thread_rng, Rng};

fn random_points(n: usize, spread: i32) -> Vec<Point> {
    let mut rng = thread_rng();
    let side = Uniform::new(-spread, spread);
    (0..n).map(|_| Point::new(rng.sample(side), rng.sample(side), rng.sample(side))).collect()
}

fn walk_down(tree: &Octree) -> Vec<IterNode> {
    let mut iter = tree.iter_down();
    let mut nodes = Vec::new();
    while let Some(node) = iter.next() {
        nodes.push(node);
    }
    assert!(iter.next().is_none());
    nodes
}

fn walk_up(tree: &Octree) -> Vec<IterNode> {
    let mut iter = tree.iter_up();
    let mut nodes = Vec::new();
    while let Some(node) = iter.next() {
        nodes.push(node);
    }
    assert!(iter.next().is_none());
    nodes
}

fn node_ref(node: &IterNode) -> u32 {
    match node {
        IterNode::Stem(s) => s.node_idx,
        IterNode::Leaf(l) => l.node_idx | 0x8000_0000,
    }
}

fn node_cube(node: &IterNode) -> Cube {
    match node {
        IterNode::Stem(s) => s.cube,
        IterNode::Leaf(l) => l.cube,
    }
}

#[test]
fn down_walk_of_a_single_leaf() {
    let points = random_points(3, 100);
    let tree = Octree::fixed_depth(&points, 0);
    let nodes = walk_down(&tree);
    assert_eq!(nodes.len(), 1);
    match nodes[0] {
        IterNode::Leaf(l) => {
            assert_eq!(l.node_idx, 0);
            assert_eq!(l.cube, tree.bounds);
        }
        IterNode::Stem(_) => panic!("a leaf was expected"),
    }
}

#[test]
fn down_walk_over_one_stem() {
    let points = vec![Point::new(0, 0, 0), Point::new(10, 10, 10)];
    let tree = Octree::fixed_depth(&points, 1);
    let nodes = walk_down(&tree);
    let refs: Vec<u32> = nodes.iter().map(node_ref).collect();
    assert_eq!(
        refs,
        vec![
            0,
            0x8000_0007,
            0x8000_0006,
            0x8000_0005,
            0x8000_0004,
            0x8000_0003,
            0x8000_0002,
            0x8000_0001,
            0x8000_0000
        ]
    );
    assert_eq!(node_cube(&nodes[0]), tree.bounds);
    assert_eq!(node_cube(&nodes[1]), tree.bounds.child_cube(7));
    assert_eq!(node_cube(&nodes[8]), tree.bounds.child_cube(0));
}

#[test]
fn up_walk_over_one_stem() {
    let points = vec![Point::new(0, 0, 0), Point::new(10, 10, 10)];
    let tree = Octree::fixed_depth(&points, 1);
    let nodes = walk_up(&tree);
    let refs: Vec<u32> = nodes.iter().map(node_ref).collect();
    assert_eq!(
        refs,
        vec![
            0x8000_0007,
            0x8000_0006,
            0x8000_0005,
            0x8000_0004,
            0x8000_0003,
            0x8000_0002,
            0x8000_0001,
            0x8000_0000,
            0
        ]
    );
    assert_eq!(node_cube(&nodes[8]), tree.bounds);
    assert_eq!(node_cube(&nodes[0]), tree.bounds.child_cube(7));
}

#[test]
fn down_walk_visits_every_node_once_parents_first() {
    let points = random_points(2000, 1 << 12);
    let tree = Octree::variable_depth(&points, 4);
    let nodes = walk_down(&tree);
    assert_eq!(nodes.len(), tree.stems.len() + tree.leafs.len());
    let mut place = std::collections::HashMap::new();
    for (i, node) in nodes.iter().enumerate() {
        assert!(place.insert(node_ref(node), i).is_none());
    }
    for s in 0..tree.stems.len() {
        assert!(place.contains_key(&(s as u32)));
    }
    for l in 0..tree.leafs.len() {
        assert!(place.contains_key(&(l as u32 | 0x8000_0000)));
    }
    for (s, stem) in tree.stems.iter().enumerate() {
        let cube = node_cube(&nodes[place[&(s as u32)]]);
        for o in 0..8 {
            let at = place[&stem.childs_idx[o]];
            assert!(place[&(s as u32)] < at);
            assert_eq!(node_cube(&nodes[at]), cube.child_cube(o));
        }
    }
    assert_eq!(node_ref(&nodes[0]), tree.root);
}

#[test]
fn up_walk_visits_every_node_once_children_first() {
    let points = random_points(2000, 1 << 12);
    let tree = Octree::variable_depth(&points, 4);
    let nodes = walk_up(&tree);
    assert_eq!(nodes.len(), tree.stems.len() + tree.leafs.len());
    let mut place = std::collections::HashMap::new();
    for (i, node) in nodes.iter().enumerate() {
        assert!(place.insert(node_ref(node), i).is_none());
    }
    for (s, stem) in tree.stems.iter().enumerate() {
        let cube = node_cube(&nodes[place[&(s as u32)]]);
        for o in 0..8 {
            let at = place[&stem.childs_idx[o]];
            assert!(at < place[&(s as u32)]);
            assert_eq!(node_cube(&nodes[at]), cube.child_cube(o));
        }
    }
    assert_eq!(node_ref(&nodes[nodes.len() - 1]), tree.root);

    let mut down: Vec<u32> = walk_down(&tree).iter().map(node_ref).collect();
    let mut up: Vec<u32> = nodes.iter().map(node_ref).collect();
    down.sort();
    up.sort();
    assert_eq!(down, up);
}

#[test]
fn element_walk_gives_each_leaf_its_points_then_its_cube() {
    let points = vec![Point::new(0, 0, 0), Point::new(10, 10, 10), Point::new(9, 9, 9)];
    let tree = Octree::fixed_depth(&points, 1);
    let mut iter = tree.iter_elements();
    let mut seen = Vec::new();
    while let Some(e) = iter.next() {
        seen.push(e);
    }
    assert!(iter.next().is_none());
    // the stem, then octant 7 with two points, six empty leaves, octant 0 with one point
    assert_eq!(seen.len(), 1 + 3 + 6 + 2);
    assert!(matches!(seen[0], TreeElements::Node { cube } if cube == tree.bounds));
    let mut first = Vec::new();
    for e in &seen[1..3] {
        match e {
            TreeElements::Point { index, point } => {
                assert_eq!(*point, points[*index as usize]);
                first.push(*index);
            }
            TreeElements::Node { .. } => panic!("a point was expected"),
        }
    }
    first.sort();
    assert_eq!(first, vec![1, 2]);
    assert!(matches!(seen[3], TreeElements::Node { cube } if cube == tree.bounds.child_cube(7)));
    for e in &seen[4..10] {
        assert!(matches!(e, TreeElements::Node { .. }));
    }
    assert!(matches!(seen[10], TreeElements::Point { index: 0, .. }));
    assert!(matches!(seen[11], TreeElements::Node { cube } if cube == tree.bounds.child_cube(0)));
}

#[test]
fn element_walk_gives_every_point_once() {
    let points = random_points(1500, 1 << 12);
    let tree = Octree::variable_depth(&points, 5);
    let mut iter = tree.iter_elements();
    let mut ids = Vec::new();
    let mut cubes = 0;
    while let Some(e) = iter.next() {
        match e {
            TreeElements::Point { index, point } => {
                assert_eq!(point, points[index as usize]);
                ids.push(index);
            }
            TreeElements::Node { .. } => cubes += 1,
        }
    }
    assert_eq!(cubes, tree.stems.len() + tree.leafs.len());
    ids.sort();
    assert_eq!(ids, (0..1500).collect::<Vec<u32>>());
}
