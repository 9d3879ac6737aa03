use avl_jit::avl::{is_ordered, AvlTree, Node};
use avl_jit::key::{compare, rank_value, Key, Order};

#[test]
fn new_tree_is_empty() {
    let tree: AvlTree<i32, i32> = AvlTree::new();
    assert!(tree.root.is_none());
    assert_eq!(tree.lookup(&0), None);
    assert!(tree.pre_order().is_empty());
}

#[test]
fn lookup_finds_what_was_inserted() {
    let mut tree = AvlTree::new();
    for k in [5, 3, 8, 1, 4, 7, 9] {
        tree.insert(k, k * 10);
    }
    for k in [5, 3, 8, 1, 4, 7, 9] {
        assert_eq!(tree.lookup(&k), Some(k * 10));
    }
    assert_eq!(tree.lookup(&6), None);
    assert_eq!(tree.lookup(&100), None);
    assert_eq!(tree.lookup(&-1), None);
}

#[test]
fn insert_replaces_the_value_of_a_key() {
    let mut tree = AvlTree::new();
    tree.insert(1, 10);
    tree.insert(2, 20);
    tree.insert(1, 11);
    assert_eq!(tree.lookup(&1), Some(11));
    assert_eq!(tree.lookup(&2), Some(20));
    assert_eq!(tree.pre_order().len(), 2);
}

#[test]
fn ascending_inserts_stay_balanced() {
    let mut tree = AvlTree::new();
    for k in 1..=7 {
        tree.insert(k, k);
    }
    let keys: Vec<i32> = tree.pre_order().iter().map(|n| n.key).collect();
    assert_eq!(keys, vec![4, 2, 1, 3, 6, 5, 7]);
    assert_eq!(tree.root.as_ref().unwrap().height, 3);
    let heights: Vec<i32> = tree.pre_order().iter().map(|n| n.height).collect();
    assert_eq!(heights, vec![3, 2, 1, 1, 2, 1, 1]);
}

#[test]
fn double_rotations_rebalance() {
    let mut left_right = AvlTree::new();
    for k in [3, 1, 2] {
        left_right.insert(k, k);
    }
    let keys: Vec<i32> = left_right.pre_order().iter().map(|n| n.key).collect();
    assert_eq!(keys, vec![2, 1, 3]);
    let mut right_left = AvlTree::new();
    for k in [1, 3, 2] {
        right_left.insert(k, k);
    }
    let keys: Vec<i32> = right_left.pre_order().iter().map(|n| n.key).collect();
    assert_eq!(keys, vec![2, 1, 3]);
}

#[test]
fn pre_order_lists_parents_first() {
    let mut tree = AvlTree::new();
    for k in [5, 3, 8, 1, 4, 7, 9] {
        tree.insert(k, -k);
    }
    let nodes = tree.pre_order();
    let keys: Vec<i32> = nodes.iter().map(|n| n.key).collect();
    let values: Vec<i32> = nodes.iter().map(|n| n.value).collect();
    assert_eq!(keys, vec![5, 3, 1, 4, 8, 7, 9]);
    assert_eq!(values, vec![-5, -3, -1, -4, -8, -7, -9]);
}

#[test]
fn height_grows_with_the_logarithm() {
    let mut tree = AvlTree::new();
    for k in 0..1000 {
        tree.insert(k, k);
    }
    let height = tree.root.as_ref().unwrap().height;
    assert!(height >= 10 && height <= 14);
    for k in 0..1000 {
        assert_eq!(tree.lookup(&k), Some(k));
    }
}

#[test]
fn limbs_of_an_integer_key() {
    assert_eq!(7i32.to_limbs(), (7, 0));
    assert_eq!((-7i32).to_limbs(), (-7, 0));
    assert_eq!(rank_value(&0i32), 0x8000_0000_0000_0000);
    assert_eq!(rank_value(&1i32), 0x1_8000_0000_0000_0000);
    assert_eq!(rank_value(&-1i32), -0x8000_0000_0000_0000);
}

#[test]
fn limbs_of_a_byte_key() {
    let key: [u8; 16] = [1, 2, 3, 4, 5, 6, 7, 8, 9, 10, 11, 12, 13, 14, 15, 0x90];
    assert_eq!(
        key.to_limbs(),
        (0x0807_0605_0403_0201, 0x900F_0E0D_0C0B_0A09u64 as i64)
    );
    let zero = [0u8; 16];
    assert_eq!(zero.to_limbs(), (0, 0));
    assert_eq!(rank_value(&zero), 0x8000_0000_0000_0000);
    let ones = [0xFFu8; 16];
    assert_eq!(ones.to_limbs(), (-1, -1));
    assert_eq!(rank_value(&ones), -0x8000_0000_0000_0001);
}

#[test]
fn keys_are_ordered_first_limb_first() {
    assert_eq!(compare(&1i32, &2i32), Order::Less);
    assert_eq!(compare(&2i32, &2i32), Order::Equal);
    assert_eq!(compare(&3i32, &-2i32), Order::Greater);
    let mut low_first = [0u8; 16];
    low_first[0] = 1;
    let mut high_second = [0u8; 16];
    high_second[15] = 0x7F;
    assert_eq!(compare(&high_second, &low_first), Order::Less);
    let mut negative_second = [0u8; 16];
    negative_second[15] = 0x80;
    assert_eq!(compare(&negative_second, &[0u8; 16]), Order::Less);
    assert_eq!(compare(&[0xFFu8; 16], &[0u8; 16]), Order::Less);
    assert_eq!(compare(&low_first, &low_first), Order::Equal);
    assert_eq!(compare(&low_first, &[0u8; 16]), Order::Greater);
}

#[test]
fn byte_keys_are_found_again() {
    let mut tree = AvlTree::new();
    let mut keys = Vec::new();
    for i in 0..200u32 {
        let mut k = [0u8; 16];
        k[..4].copy_from_slice(&i.wrapping_mul(2654435761).to_le_bytes());
        k[8..12].copy_from_slice(&i.wrapping_mul(40503).to_be_bytes());
        tree.insert(k, i as i32);
        keys.push(k);
    }
    for (i, k) in keys.iter().enumerate() {
        assert_eq!(tree.lookup(k), Some(i as i32));
    }
    assert_eq!(tree.lookup(&[0xEE; 16]), None);
}

#[test]
fn inserted_trees_are_ordered() {
    let mut tree = AvlTree::new();
    assert!(is_ordered(&tree.root));
    for k in [5, 3, 8, 1, 4, 7, 9, i32::MIN, i32::MAX] {
        tree.insert(k, k);
        assert!(is_ordered(&tree.root));
    }
    let mut wide = AvlTree::new();
    wide.insert([0xFFu8; 16], 1);
    wide.insert([0u8; 16], 2);
    wide.insert([0x80u8; 16], 3);
    assert!(is_ordered(&wide.root));
}

#[test]
fn misplaced_keys_are_noticed() {
    let leaf = |key: i32| Some(Box::new(Node { key, value: 0, height: 1, left: None, right: None }));
    let good = Some(Box::new(Node { key: 5, value: 0, height: 2, left: leaf(3), right: leaf(8) }));
    assert!(is_ordered(&good));
    let swapped = Some(Box::new(Node { key: 5, value: 0, height: 2, left: leaf(8), right: leaf(3) }));
    assert!(!is_ordered(&swapped));
    let twice = Some(Box::new(Node { key: 5, value: 0, height: 2, left: leaf(5), right: None }));
    assert!(!is_ordered(&twice));
    let deep = Some(Box::new(Node {
        key: 5,
        value: 0,
        height: 3,
        left: Some(Box::new(Node { key: 3, value: 0, height: 2, left: None, right: leaf(6) })),
        right: None,
    }));
    assert!(!is_ordered(&deep));
}

#[test]
fn replacing_a_value_moves_no_node() {
    let mut tree = AvlTree::new();
    for k in [5, 3, 8, 1, 4, 7, 9] {
        tree.insert(k, k);
    }
    let before: Vec<(i32, i32)> = tree.pre_order().iter().map(|n| (n.key, n.height)).collect();
    for k in [1, 8, 5, 4] {
        tree.insert(k, -k);
    }
    let after: Vec<(i32, i32)> = tree.pre_order().iter().map(|n| (n.key, n.height)).collect();
    assert_eq!(before, after);
    let values: Vec<i32> = tree.pre_order().iter().map(|n| n.value).collect();
    assert_eq!(values, vec![-5, 3, -1, -4, -8, 7, 9]);
}
