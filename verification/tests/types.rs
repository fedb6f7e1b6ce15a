use octree::types::Index;

#[test]
fn test_child() {
    assert_eq!(0usize.child(), 0usize);
    assert_eq!(4usize.child(), 4usize);
    assert_eq!(7usize.child(), 7usize);
    assert_eq!(16usize.child(), 0usize);
    assert_eq!(2980usize.child(), 4usize);
    assert_eq!(6031usize.child(), 7usize);
}

#[test]
fn test_mask() {
    assert_eq!(usize::mask(), 7);
}

#[test]
fn test_block() {
    assert_eq!(0.node_block(), 0);
    assert_eq!(4.node_block(), 0);
    assert_eq!(7.node_block(), 0);
    assert_eq!(16.node_block(), 2);
    assert_eq!(2980.node_block(), 372);
    assert_eq!(6031.node_block(), 753);
}

#[test]
fn test_is_empty() {
    assert_eq!(0.is_empty(), false);
    assert_eq!((usize::max_value() >> 1).is_empty(), false);
    assert_eq!(((usize::max_value() >> 1) + 1).is_empty(), false);
    assert_eq!(usize::max_value().is_empty(), true);
}

#[test]
fn test_is_leaf() {
    assert_eq!(0.is_leaf(), false);
    assert_eq!((usize::max_value() >> 1).is_leaf(), false);
    assert_eq!(((usize::max_value() >> 1) + 1).is_leaf(), true);
    assert_eq!(usize::max_value().is_leaf(), true);
}

#[test]
fn references_pack_and_unpack() {
    assert_eq!(usize::node_idx(372, 4), 2980);
    assert_eq!(2980usize.to_tuple(), (372, 4));
    assert_eq!(usize::node_idx(0, 0), 0);
    assert_eq!(usize::node_idx(1, 0), 8);
    let leaf = usize::points_idx(5);
    assert!(leaf.is_leaf());
    assert!(!leaf.is_empty());
    assert_eq!(leaf.points_block(), 5);
    assert_eq!(leaf, (usize::MAX >> 1) + 1 + 5);
    assert_eq!(usize::points_idx(0).points_block(), 0);
    assert_eq!(usize::empty(), usize::MAX);
    assert!(usize::empty().is_empty());
    assert_eq!(usize::root(), usize::MAX >> 1);
    assert!(usize::root().is_root());
    assert!(!usize::root().is_leaf());
    assert!(!0usize.is_root());
    assert!(!usize::empty().is_root());
}
