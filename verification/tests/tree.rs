use min_heap::BinaryTree;

fn sample() -> BinaryTree<i32> {
    //        8
    //      /   \
    //     3     10
    //    / \      \
    //   1   6      14
    let mut left = BinaryTree::new(3);
    left.insert_left_node(1);
    left.insert_right_node(6);
    let mut right = BinaryTree::new(10);
    right.insert_right_node(14);
    BinaryTree { key: 8, left: Some(Box::new(left)), right: Some(Box::new(right)) }
}

#[test]
fn new_tree_is_a_single_leaf() {
    let tree = BinaryTree::new(7);
    assert_eq!(tree.get_key(), 7);
    assert_eq!(tree.get_left(), None);
    assert_eq!(tree.get_right(), None);
    assert_eq!(tree.size(), 1);
    assert_eq!(tree.leaf_size(), 1);
    assert_eq!(tree.none_leaf_size(), 0);
    assert_eq!(tree.depth(), 1);
    assert_eq!(tree.min(), Some(&7));
    assert_eq!(tree.max(), Some(&7));
}

#[test]
fn insert_left_pushes_the_old_subtree_down() {
    let mut tree = BinaryTree::new(1);
    tree.insert_left_node(2);
    tree.insert_left_node(3);
    let left = tree.get_left().unwrap();
    assert_eq!(left.get_key(), 3);
    assert_eq!(left.get_right(), None);
    let below = left.get_left().unwrap();
    assert_eq!(below.get_key(), 2);
    assert_eq!(below.get_left(), None);
    assert_eq!(tree.get_right(), None);
    assert_eq!(tree.size(), 3);
    assert_eq!(tree.depth(), 3);
}

#[test]
fn insert_right_pushes_the_old_subtree_down() {
    let mut tree = BinaryTree::new(1);
    tree.insert_right_node(2);
    tree.insert_right_node(3);
    let right = tree.get_right().unwrap();
    assert_eq!(right.get_key(), 3);
    assert_eq!(right.get_left(), None);
    let below = right.get_right().unwrap();
    assert_eq!(below.get_key(), 2);
    assert_eq!(tree.get_left(), None);
    assert_eq!(tree.size(), 3);
    assert_eq!(tree.leaf_size(), 1);
}

#[test]
fn counts_of_a_sample_tree() {
    let tree = sample();
    assert_eq!(tree.size(), 6);
    assert_eq!(tree.calc_size(0), 6);
    assert_eq!(tree.calc_size(10), 16);
    assert_eq!(tree.leaf_size(), 3);
    assert_eq!(tree.none_leaf_size(), 3);
    assert_eq!(tree.depth(), 3);
}

#[test]
fn min_and_max_follow_the_outer_paths() {
    let tree = sample();
    assert_eq!(tree.min(), Some(&1));
    assert_eq!(tree.max(), Some(&14));
    let mut skewed = BinaryTree::new(5);
    skewed.insert_right_node(9);
    assert_eq!(skewed.min(), Some(&5));
    assert_eq!(skewed.max(), Some(&9));
}

#[test]
fn contains_finds_every_key_of_a_search_tree() {
    let tree = sample();
    for k in [8, 3, 10, 1, 6, 14] {
        assert!(tree.contains(&k));
    }
    for k in [0, 2, 4, 7, 9, 11, 15] {
        assert!(!tree.contains(&k));
    }
}

#[test]
fn contains_walks_by_order_not_by_position() {
    // 9 sits in the left subtree of 5, where a search for 9 never goes.
    let mut tree = BinaryTree::new(5);
    tree.insert_left_node(9);
    assert!(!tree.contains(&9));
    assert!(tree.contains(&5));
}

#[test]
fn set_key_changes_only_the_root() {
    let mut tree = sample();
    tree.set_key(20);
    assert_eq!(tree.get_key(), 20);
    assert_eq!(tree.get_left(), sample().get_left());
    assert_eq!(tree.get_right(), sample().get_right());
}

#[test]
fn clone_copies_the_whole_tree() {
    let tree = sample();
    let mut copy = tree.clone();
    assert_eq!(copy, tree);
    copy.insert_left_node(99);
    assert_eq!(copy.size(), 7);
    assert_eq!(tree.size(), 6);
}
