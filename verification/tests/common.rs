use splaycompress::common::{Direction, Node, NodeRef, Symbol};
use std::mem::size_of;

#[test]
fn test_sizes_u8() {
    assert_eq!(size_of::<u8>() + size_of::<u8>(), size_of::<NodeRef<u8>>());
}

#[test]
fn test_ref_leaf_u8() {
    let leaf_0 = NodeRef::<u8>::new_leaf(0);
    let leaf_10 = NodeRef::<u8>::new_leaf(10);
    let leaf_max = NodeRef::<u8>::new_leaf(u8::MAX);
    assert_eq!(leaf_0.as_leaf(), Some(0));
    assert_eq!(leaf_10.as_leaf(), Some(10));
    assert_eq!(leaf_max.as_leaf(), Some(u8::MAX));
    assert_eq!(leaf_0.as_internal(), None);
    assert_eq!(leaf_10.as_internal(), None);
    assert_eq!(leaf_max.as_internal(), None);
}

#[test]
fn test_ref_internal_u8() {
    let int_0 = NodeRef::<u8>::new_internal(0, u8::MAX);
    let int_10 = NodeRef::<u8>::new_internal(10, u8::MAX);
    let int_max = NodeRef::<u8>::new_internal(u8::MAX - 1, u8::MAX);
    assert_eq!(int_0.as_internal(), Some(0));
    assert_eq!(int_10.as_internal(), Some(10));
    assert_eq!(int_max.as_internal(), Some(u8::MAX - 1));
    assert_eq!(int_0.as_leaf(), None);
    assert_eq!(int_10.as_leaf(), None);
    assert_eq!(int_max.as_leaf(), None);
}

#[test]
fn test_sizes_u16() {
    assert_eq!(
        size_of::<u16>() + size_of::<u8>() + 1,
        size_of::<NodeRef<u16>>()
    );
}

#[test]
fn test_ref_leaf_u16() {
    let leaf_0 = NodeRef::<u16>::new_leaf(0);
    let leaf_10 = NodeRef::<u16>::new_leaf(10);
    let leaf_999 = NodeRef::<u16>::new_leaf(999);
    let leaf_max = NodeRef::<u16>::new_leaf(u16::MAX);
    assert_eq!(leaf_0.as_leaf(), Some(0));
    assert_eq!(leaf_10.as_leaf(), Some(10));
    assert_eq!(leaf_999.as_leaf(), Some(999));
    assert_eq!(leaf_max.as_leaf(), Some(u16::MAX));
    assert_eq!(leaf_0.as_internal(), None);
    assert_eq!(leaf_10.as_internal(), None);
    assert_eq!(leaf_max.as_internal(), None);
}

#[test]
fn test_ref_internal_u16() {
    let int_0 = NodeRef::<u16>::new_internal(0, u16::MAX);
    let int_10 = NodeRef::<u16>::new_internal(10, u16::MAX);
    let int_999 = NodeRef::<u16>::new_internal(999, u16::MAX);
    let int_max = NodeRef::<u16>::new_internal(u16::MAX - 1, u16::MAX);
    assert_eq!(int_0.as_internal(), Some(0));
    assert_eq!(int_10.as_internal(), Some(10));
    assert_eq!(int_999.as_internal(), Some(999));
    assert_eq!(int_max.as_internal(), Some(u16::MAX - 1));
    assert_eq!(int_0.as_leaf(), None);
    assert_eq!(int_10.as_leaf(), None);
    assert_eq!(int_999.as_leaf(), None);
    assert_eq!(int_max.as_leaf(), None);
}

#[test]
fn common_test_dir_roundtrip() {
    assert_eq!(
        Direction::Right,
        Direction::from_bit(Direction::Right.to_bit())
    );
    assert_eq!(
        Direction::Left,
        Direction::from_bit(Direction::Left.to_bit())
    );
    assert!(Direction::from_bit(true).to_bit());
    assert!(!Direction::from_bit(false).to_bit());
}

#[test]
fn opposite_flips() {
    assert_eq!(Direction::Left.opposite(), Direction::Right);
    assert_eq!(Direction::Right.opposite(), Direction::Left);
    assert_eq!(Direction::Right.opposite().opposite(), Direction::Right);
}

#[test]
fn arm_picks_the_side() {
    let mut node = Node::<u8> { left: NodeRef::new_leaf(4), right: NodeRef::new_internal(9, u8::MAX) };
    assert_eq!(node.arm(Direction::Left), NodeRef::Leaf(4));
    assert_eq!(node.arm(Direction::Right), NodeRef::Internal(9));
    *node.arm_mut(Direction::Left) = NodeRef::Internal(3);
    assert_eq!(node.left, NodeRef::Internal(3));
    assert_eq!(node.right, NodeRef::Internal(9));
    *node.arm_mut(Direction::Right) = NodeRef::Leaf(10);
    assert_eq!(node.left, NodeRef::Internal(3));
    assert_eq!(node.right, NodeRef::Leaf(10));
}

#[test]
fn symbols_are_their_integers() {
    assert_eq!(<u8 as Symbol>::limit(), 255);
    assert_eq!(<u16 as Symbol>::limit(), 65535);
    assert_eq!(200u8.as_index(), 200);
    assert_eq!(40000u16.as_index(), 40000);
    assert_eq!(<u8 as Symbol>::from_index(17), 17u8);
    assert_eq!(<u16 as Symbol>::from_index(300), 300u16);
    assert!(5u8.exceeds(4));
    assert!(!5u8.exceeds(5));
    assert!(!5u16.exceeds(600));
}
