use splaycompress::common::{Direction, NodeRef};
use splaycompress::splay::{Arena16, Arena8, NodeArena};

fn root_of(tree: &Arena8) -> u8 {
    tree.root_idx().as_internal().unwrap()
}


#[test]
fn test_uniform_is_consistent() {
    let tree = Arena8::new_uniform();
    assert!(tree.is_consistent());
}

#[test]
fn test_tree_structure() {
    let tree = Arena8::new_uniform();
    assert_eq!(root_of(&tree), 127);
    assert_eq!(tree.node(0).left, NodeRef::new_leaf(0));
    assert_eq!(tree.node(0).right, NodeRef::new_leaf(1));
    assert_eq!(
        tree.node(1).left,
        NodeRef::new_internal(0, u8::MAX)
    );
    assert_eq!(
        tree.node(1).right,
        NodeRef::new_internal(2, u8::MAX)
    );
    assert_eq!(tree.node(2).left, NodeRef::new_leaf(2));
    assert_eq!(tree.node(2).right, NodeRef::new_leaf(3));
    assert_eq!(
        tree.node(3).left,
        NodeRef::new_internal(1, u8::MAX)
    );
    assert_eq!(
        tree.node(3).right,
        NodeRef::new_internal(5, u8::MAX)
    );
    assert_eq!(tree.node(4).left, NodeRef::new_leaf(4));
    assert_eq!(tree.node(4).right, NodeRef::new_leaf(5));
    assert_eq!(
        tree.node(5).left,
        NodeRef::new_internal(4, u8::MAX)
    );
    assert_eq!(
        tree.node(5).right,
        NodeRef::new_internal(6, u8::MAX)
    );
    assert_eq!(tree.node(6).left, NodeRef::new_leaf(6));
    assert_eq!(tree.node(6).right, NodeRef::new_leaf(7));
}

#[test]
fn test_go_basic() {
    let mut tree = Arena8::new_uniform();
    let mut walker = tree.splayable_mut(); // [0, 255]
    assert_eq!(127, walker.current_value());
    assert_eq!(false, walker.is_leaf());
    assert_eq!(127, walker.current_value());
    assert_eq!(false, walker.is_leaf());
    walker.go(Direction::Right); // [128, 255]
    assert_eq!(128 + 63, walker.current_value());
    assert_eq!(false, walker.is_leaf());
    walker.go(Direction::Left); // [128, 191]
    assert_eq!(128 + 31, walker.current_value());
    assert_eq!(false, walker.is_leaf());
    walker.go(Direction::Right); // [160, 191]
    assert_eq!(160 + 15, walker.current_value());
    assert_eq!(false, walker.is_leaf());
    walker.go(Direction::Left); // [160, 175]
    assert_eq!(160 + 7, walker.current_value());
    assert_eq!(false, walker.is_leaf());
    walker.go(Direction::Right); // [168, 175]
    assert_eq!(168 + 3, walker.current_value());
    assert_eq!(false, walker.is_leaf());
    walker.go(Direction::Left); // [168, 171]
    assert_eq!(168 + 1, walker.current_value());
    assert_eq!(false, walker.is_leaf());
    walker.go(Direction::Right); // [170, 171]
    assert_eq!(170 + 0, walker.current_value());
    assert_eq!(false, walker.is_leaf());
    walker.go(Direction::Left); // [170, 170]
    assert_eq!(170, walker.current_value());
    assert_eq!(true, walker.is_leaf());
}

#[test]
fn test_splay_noop() {
    let mut tree = Arena8::new_uniform();
    assert_eq!(root_of(&tree), 127);
    assert_eq!(
        tree.node(127).left,
        NodeRef::new_internal(63, u8::MAX)
    );
    assert_eq!(
        tree.node(127).right,
        NodeRef::new_internal(128 + 63, u8::MAX)
    );
    {
        let mut walker = tree.splayable_mut(); // [0, 255]
        walker.splay_internal();
    }
    assert_eq!(root_of(&tree), 127);
    assert_eq!(
        tree.node(127).left,
        NodeRef::new_internal(63, u8::MAX)
    );
    assert_eq!(
        tree.node(127).right,
        NodeRef::new_internal(128 + 63, u8::MAX)
    );
    assert!(tree.is_consistent());
}

#[test]
fn test_splay_zig_left() {
    let mut tree = Arena8::new_uniform();
    assert_eq!(root_of(&tree), 127);
    assert_eq!(
        tree.node(127).left,
        NodeRef::new_internal(63, u8::MAX)
    );
    assert_eq!(
        tree.node(127).right,
        NodeRef::new_internal(128 + 63, u8::MAX)
    );
    assert_eq!(
        tree.node(63).left,
        NodeRef::new_internal(31, u8::MAX)
    );
    assert_eq!(
        tree.node(63).right,
        NodeRef::new_internal(64 + 31, u8::MAX)
    );
    {
        let mut walker = tree.splayable_mut(); // [0, 255]
        walker.go(Direction::Left);
        walker.splay_internal();
    }
    assert_eq!(root_of(&tree), 63);
    assert_eq!(
        tree.node(63).left,
        NodeRef::new_internal(31, u8::MAX)
    );
    assert_eq!(
        tree.node(63).right,
        NodeRef::new_internal(127, u8::MAX)
    );
    assert_eq!(
        tree.node(127).left,
        NodeRef::new_internal(64 + 31, u8::MAX)
    );
    assert_eq!(
        tree.node(127).right,
        NodeRef::new_internal(128 + 63, u8::MAX)
    );
    assert!(tree.is_consistent());
}

#[test]
fn test_splay_zig_right() {
    let mut tree = Arena8::new_uniform();
    assert_eq!(root_of(&tree), 127);
    assert_eq!(
        tree.node(127).left,
        NodeRef::new_internal(63, u8::MAX)
    );
    assert_eq!(
        tree.node(127).right,
        NodeRef::new_internal(128 + 63, u8::MAX)
    );
    assert_eq!(
        tree.node(128 + 63).left,
        NodeRef::new_internal(128 + 31, u8::MAX)
    );
    assert_eq!(
        tree.node(128 + 63).right,
        NodeRef::new_internal(128 + 64 + 31, u8::MAX)
    );
    {
        let mut walker = tree.splayable_mut(); // [0, 255]
        walker.go(Direction::Right);
        walker.splay_internal();
    }
    assert_eq!(root_of(&tree), 128 + 63);
    assert_eq!(
        tree.node(128 + 63).left,
        NodeRef::new_internal(127, u8::MAX)
    );
    assert_eq!(
        tree.node(128 + 63).right,
        NodeRef::new_internal(128 + 64 + 31, u8::MAX)
    );
    assert_eq!(
        tree.node(127).left,
        NodeRef::new_internal(63, u8::MAX)
    );
    assert_eq!(
        tree.node(127).right,
        NodeRef::new_internal(128 + 31, u8::MAX)
    );
    assert!(tree.is_consistent());
}

#[test]
fn test_splay_zigzig_left() {
    let mut tree = Arena8::new_uniform();
    assert_eq!(root_of(&tree), 0x7f);
    assert_eq!(
        tree.node(0x7f).left,
        NodeRef::new_internal(0x3f, u8::MAX)
    );
    assert_eq!(
        tree.node(0x7f).right,
        NodeRef::new_internal(0xbf, u8::MAX)
    );
    assert_eq!(
        tree.node(0x3f).left,
        NodeRef::new_internal(0x1f, u8::MAX)
    );
    assert_eq!(
        tree.node(0x3f).right,
        NodeRef::new_internal(0x5f, u8::MAX)
    );
    assert_eq!(
        tree.node(0x1f).left,
        NodeRef::new_internal(0x0f, u8::MAX)
    );
    assert_eq!(
        tree.node(0x1f).right,
        NodeRef::new_internal(0x2f, u8::MAX)
    );
    {
        let mut walker = tree.splayable_mut(); // [0, 255]
        walker.go(Direction::Left);
        walker.go(Direction::Left);
        walker.splay_internal();
    }
    assert_eq!(root_of(&tree), 0x1f);
    assert_eq!(
        tree.node(0x1f).left,
        NodeRef::new_internal(0x0f, u8::MAX)
    );
    assert_eq!(
        tree.node(0x1f).right,
        NodeRef::new_internal(0x3f, u8::MAX)
    );
    assert_eq!(
        tree.node(0x3f).left,
        NodeRef::new_internal(0x2f, u8::MAX)
    );
    assert_eq!(
        tree.node(0x3f).right,
        NodeRef::new_internal(0x7f, u8::MAX)
    );
    assert_eq!(
        tree.node(0x7f).left,
        NodeRef::new_internal(0x5f, u8::MAX)
    );
    assert_eq!(
        tree.node(0x7f).right,
        NodeRef::new_internal(0xbf, u8::MAX)
    );
    assert!(tree.is_consistent());
}

#[test]
fn test_splay_zigzig_right() {
    let mut tree = Arena8::new_uniform();
    assert_eq!(root_of(&tree), 0x7f);
    assert_eq!(
        tree.node(0x7f).left,
        NodeRef::new_internal(0x3f, u8::MAX)
    );
    assert_eq!(
        tree.node(0x7f).right,
        NodeRef::new_internal(0xbf, u8::MAX)
    );
    assert_eq!(
        tree.node(0xbf).left,
        NodeRef::new_internal(0x9f, u8::MAX)
    );
    assert_eq!(
        tree.node(0xbf).right,
        NodeRef::new_internal(0xdf, u8::MAX)
    );
    assert_eq!(
        tree.node(0xdf).left,
        NodeRef::new_internal(0xcf, u8::MAX)
    );
    assert_eq!(
        tree.node(0xdf).right,
        NodeRef::new_internal(0xef, u8::MAX)
    );
    {
        let mut walker = tree.splayable_mut(); // [0, 255]
        walker.go(Direction::Right);
        walker.go(Direction::Right);
        walker.splay_internal();
    }
    assert_eq!(root_of(&tree), 0xdf);
    assert_eq!(
        tree.node(0xdf).left,
        NodeRef::new_internal(0xbf, u8::MAX)
    );
    assert_eq!(
        tree.node(0xdf).right,
        NodeRef::new_internal(0xef, u8::MAX)
    );
    assert_eq!(
        tree.node(0xbf).left,
        NodeRef::new_internal(0x7f, u8::MAX)
    );
    assert_eq!(
        tree.node(0xbf).right,
        NodeRef::new_internal(0xcf, u8::MAX)
    );
    assert_eq!(
        tree.node(0x7f).left,
        NodeRef::new_internal(0x3f, u8::MAX)
    );
    assert_eq!(
        tree.node(0x7f).right,
        NodeRef::new_internal(0x9f, u8::MAX)
    );
    assert!(tree.is_consistent());
}

#[test]
fn test_splay_zigzag_rightleft() {
    let mut tree = Arena8::new_uniform();
    assert_eq!(root_of(&tree), 0x7f);
    assert_eq!(
        tree.node(0x7f).left,
        NodeRef::new_internal(0x3f, u8::MAX)
    );
    assert_eq!(
        tree.node(0x7f).right,
        NodeRef::new_internal(0xbf, u8::MAX)
    );
    assert_eq!(
        tree.node(0xbf).left,
        NodeRef::new_internal(0x9f, u8::MAX)
    );
    assert_eq!(
        tree.node(0xbf).right,
        NodeRef::new_internal(0xdf, u8::MAX)
    );
    assert_eq!(
        tree.node(0x9f).left,
        NodeRef::new_internal(0x8f, u8::MAX)
    );
    assert_eq!(
        tree.node(0x9f).right,
        NodeRef::new_internal(0xaf, u8::MAX)
    );
    {
        let mut walker = tree.splayable_mut(); // [0, 255]
        walker.go(Direction::Right);
        walker.go(Direction::Left);
        walker.splay_internal();
    }
    assert_eq!(root_of(&tree), 0x9f);
    assert_eq!(
        tree.node(0x9f).left,
        NodeRef::new_internal(0x7f, u8::MAX)
    );
    assert_eq!(
        tree.node(0x9f).right,
        NodeRef::new_internal(0xbf, u8::MAX)
    );
    assert_eq!(
        tree.node(0x7f).left,
        NodeRef::new_internal(0x3f, u8::MAX)
    );
    assert_eq!(
        tree.node(0x7f).right,
        NodeRef::new_internal(0x8f, u8::MAX)
    );
    assert_eq!(
        tree.node(0xbf).left,
        NodeRef::new_internal(0xaf, u8::MAX)
    );
    assert_eq!(
        tree.node(0xbf).right,
        NodeRef::new_internal(0xdf, u8::MAX)
    );
    assert!(tree.is_consistent());
}

#[test]
fn test_splay_zigzag_leftright() {
    let mut tree = Arena8::new_uniform();
    assert_eq!(root_of(&tree), 0x7f);
    assert_eq!(
        tree.node(0x7f).left,
        NodeRef::new_internal(0x3f, u8::MAX)
    );
    assert_eq!(
        tree.node(0x7f).right,
        NodeRef::new_internal(0xbf, u8::MAX)
    );
    assert_eq!(
        tree.node(0x3f).left,
        NodeRef::new_internal(0x1f, u8::MAX)
    );
    assert_eq!(
        tree.node(0x3f).right,
        NodeRef::new_internal(0x5f, u8::MAX)
    );
    assert_eq!(
        tree.node(0x5f).left,
        NodeRef::new_internal(0x4f, u8::MAX)
    );
    assert_eq!(
        tree.node(0x5f).right,
        NodeRef::new_internal(0x6f, u8::MAX)
    );
    {
        let mut walker = tree.splayable_mut(); // [0, 255]
        walker.go(Direction::Left);
        walker.go(Direction::Right);
        walker.splay_internal();
    }
    assert_eq!(root_of(&tree), 0x5f);
    assert_eq!(
        tree.node(0x5f).left,
        NodeRef::new_internal(0x3f, u8::MAX)
    );
    assert_eq!(
        tree.node(0x5f).right,
        NodeRef::new_internal(0x7f, u8::MAX)
    );
    assert_eq!(
        tree.node(0x3f).left,
        NodeRef::new_internal(0x1f, u8::MAX)
    );
    assert_eq!(
        tree.node(0x3f).right,
        NodeRef::new_internal(0x4f, u8::MAX)
    );
    assert_eq!(
        tree.node(0x7f).left,
        NodeRef::new_internal(0x6f, u8::MAX)
    );
    assert_eq!(
        tree.node(0x7f).right,
        NodeRef::new_internal(0xbf, u8::MAX)
    );
    assert!(tree.is_consistent());
}

#[test]
fn test_splay_zigzig_zigzag_zig() {
    let mut tree = Arena8::new_uniform();
    {
        let mut walker = tree.splayable_mut(); // [0, 255]
        walker.go(Direction::Left);
        walker.go(Direction::Left);
        walker.go(Direction::Right);
        walker.go(Direction::Right);
        walker.go(Direction::Right);
        walker.splay_internal();
    }
    assert_eq!(root_of(&tree), 0x3b);
    assert!(tree.is_consistent());
}

#[test]
fn test_splay_zigzag_zigzig() {
    let mut tree = Arena8::new_uniform();
    {
        let mut walker = tree.splayable_mut(); // [0, 255]
        walker.go(Direction::Right);
        walker.go(Direction::Right);
        walker.go(Direction::Right);
        walker.go(Direction::Left);
        walker.splay_internal();
    }
    assert_eq!(root_of(&tree), 0xe7);
    assert!(tree.is_consistent());
}

#[test]
fn test_splay_leaf() {
    let mut tree = Arena8::new_uniform();
    {
        let mut walker = tree.splayable_mut(); // [0, 255]
        walker.go(Direction::Right);
        walker.go(Direction::Left);
        walker.go(Direction::Left);
        walker.go(Direction::Right);
        walker.go(Direction::Right);
        walker.go(Direction::Right);
        walker.go(Direction::Left);
        walker.go(Direction::Left);
        walker.splay_parent_of_leaf();
    }
    assert_eq!(root_of(&tree), 0b1001_1100);
    assert!(tree.is_consistent());
}

#[test]
fn splay_test_dir_roundtrip() {
    assert_eq!(
        Direction::Right,
        Direction::from_bit(Direction::Right.to_bit())
    );
    assert_eq!(
        Direction::Left,
        Direction::from_bit(Direction::Left.to_bit())
    );
    assert!(Direction::from_bit(true).to_bit());
    assert!(!Direction::from_bit(false).to_bit());
}

#[test]
fn uniform_16_is_consistent() {
    let tree = Arena16::new_uniform();
    assert!(tree.is_consistent());
    assert_eq!(tree.root_idx(), NodeRef::Internal(32767));
    assert_eq!(tree.node(0).left, NodeRef::Leaf(0));
    assert_eq!(tree.node(0).right, NodeRef::Leaf(1));
    assert_eq!(tree.node(32767).left, NodeRef::Internal(16383));
    assert_eq!(tree.node(32767).right, NodeRef::Internal(49151));
    assert_eq!(tree.node(65534).left, NodeRef::Leaf(65534));
    assert_eq!(tree.node(65534).right, NodeRef::Leaf(65535));
    assert_eq!(tree.node(65533).left, NodeRef::Internal(65532));
    assert_eq!(tree.node(65533).right, NodeRef::Internal(65534));
}

#[test]
fn uniform_descent_follows_the_bits_of_the_symbol() {
    for symbol in [0u8, 1, 0x42, 0x7f, 0x80, 0xaa, 0xfe, 0xff] {
        let mut tree = Arena8::new_uniform();
        let mut walker = tree.splayable_mut();
        for place in (0..8).rev() {
            assert!(!walker.is_leaf());
            walker.go(Direction::from_bit((symbol >> place) & 1 == 1));
        }
        assert!(walker.is_leaf());
        assert_eq!(walker.current_value(), symbol);
    }
}

#[test]
fn a_broken_tree_is_found_out() {
    let mut tree = Arena8::new_uniform();
    *tree.node_mut(0).arm_mut(Direction::Left) = NodeRef::Leaf(1);
    assert!(!tree.is_consistent());
    let mut tree = Arena8::new_uniform();
    *tree.root_idx_mut() = 63;
    assert!(!tree.is_consistent());
    let mut tree = Arena8::new_uniform();
    *tree.node_mut(127).arm_mut(Direction::Left) = NodeRef::Internal(127);
    assert!(!tree.is_consistent());
    let mut tree = Arena8::new_uniform();
    let kept = tree.node(127).left;
    *tree.node_mut(127).arm_mut(Direction::Left) = tree.node(127).right;
    *tree.node_mut(127).arm_mut(Direction::Right) = kept;
    assert!(!tree.is_consistent());
}

#[test]
fn subtrees_are_held_against_their_intervals() {
    let tree = Arena8::new_uniform();
    assert!(tree.is_subtree_consistent(127, 0, 255));
    assert!(tree.is_subtree_consistent(63, 0, 127));
    assert!(!tree.is_subtree_consistent(63, 0, 128));
    assert!(!tree.is_subtree_consistent(63, 1, 127));
    assert!(tree.is_subtree_consistent(0, 0, 1));
    assert!(tree.is_arm_consistent(&NodeRef::Leaf(9), 9, 9));
    assert!(!tree.is_arm_consistent(&NodeRef::Leaf(9), 9, 10));
    assert!(tree.is_arm_consistent(&NodeRef::Internal(191), 128, 255));
    assert_eq!(tree.incr(41), 42);
    assert_eq!(tree.ref_internal(41), NodeRef::Internal(41));
}

#[test]
fn walker_starts_at_the_root() {
    let mut tree = Arena8::new_uniform();
    let mut walker = tree.splayable_mut();
    assert!(walker.is_root());
    assert!(!walker.is_leaf());
    assert!(walker.is_consistent());
    walker.go(Direction::Left);
    assert!(!walker.is_root());
    assert_eq!(63, walker.current_value());
}

#[test]
fn splay_of_a_leaf_parent_empties_the_stack() {
    let mut tree = Arena8::new_uniform();
    {
        let mut walker = tree.splayable_mut();
        for _ in 0..8 {
            walker.go(Direction::Right);
        }
        assert!(walker.is_leaf());
        assert_eq!(255, walker.current_value());
        walker.splay_parent_of_leaf();
        assert!(walker.is_root());
        assert!(!walker.is_leaf());
        assert_eq!(254, walker.current_value());
        assert!(walker.is_consistent());
    }
    assert_eq!(root_of(&tree), 254);
    assert_eq!(tree.node(254).right, NodeRef::Leaf(255));
    // Three double rotations, then a single one that puts the old root on the left.
    assert_eq!(tree.node(254).left, NodeRef::Internal(127));
    assert_eq!(tree.node(127).left, NodeRef::Internal(63));
    assert!(tree.is_consistent());
}

#[test]
fn find_deep_internal_is_the_leftmost_at_its_depth() {
    let mut tree = Arena8::new_uniform();
    {
        let walker = tree.splayable_mut();
        assert_eq!(walker.find_deep_internal(0), 127);
        assert_eq!(walker.find_deep_internal(1), 63);
        assert_eq!(walker.find_deep_internal(2), 31);
        assert_eq!(walker.find_deep_internal(7), 0);
    }
    {
        let mut walker = tree.splayable_mut();
        for _ in 0..8 {
            walker.go(Direction::Left);
        }
        walker.splay_parent_of_leaf();
        // The root is now slot 0, with the leaf 0 on its left: what is deep lies on the right,
        // where the last single rotation has put the old root.
        assert_eq!(walker.current_value(), 0);
        assert_eq!(walker.find_deep_internal(0), 0);
        assert_eq!(walker.find_deep_internal(1), 127);
    }
    assert!(tree.is_consistent());
}

#[test]
fn many_splays_keep_the_tree_consistent() {
    let mut tree = Arena16::new_uniform();
    let mut state: u32 = 12345;
    for _ in 0..200 {
        {
            let mut walker = tree.splayable_mut();
            while !walker.is_leaf() {
                state = state.wrapping_mul(1103515245).wrapping_add(12345);
                walker.go(Direction::from_bit((state >> 16) & 1 == 1));
            }
            walker.splay_parent_of_leaf();
            assert!(walker.is_root());
        }
        assert!(tree.is_consistent());
    }
}
