use moving_average::SumTree;

#[test]
fn sum_tree_tracks_leaf_updates() {
    let mut tree = SumTree::new(0, 5);
    assert_eq!(tree.get_root_sum(), 0);
    assert_eq!(tree.get_leaf_nodes_slice(), vec![0, 0, 0, 0, 0]);

    tree.update_leaf_node_sample(0, 7);
    tree.update_leaf_node_sample(3, -2);
    tree.update_leaf_node_sample(4, 10);
    assert_eq!(tree.get_root_sum(), 15);
    assert_eq!(tree.get_leaf_node_sum(0), 7);
    assert_eq!(tree.get_leaf_node_sum(1), 0);
    assert_eq!(tree.get_leaf_node_sum(3), -2);
    assert_eq!(tree.get_leaf_nodes_slice(), vec![7, 0, 0, -2, 10]);

    tree.update_leaf_node_sample(0, 1);
    assert_eq!(tree.get_root_sum(), 9);
    assert_eq!(tree.get_leaf_node_sum(0), 1);
}

#[test]
fn sum_tree_zero_capacity_root_is_zero_value() {
    let tree = SumTree::new(42, 0);
    assert_eq!(tree.get_root_sum(), 42);
    assert_eq!(tree.get_leaf_nodes_slice(), Vec::<i64>::new());
}

#[test]
fn sum_tree_initializes_leaves_to_zero_value() {
    let tree = SumTree::new(3, 4);
    assert_eq!(tree.get_leaf_nodes_slice(), vec![3, 3, 3, 3]);
    assert_eq!(tree.get_root_sum(), 12);
}

#[test]
fn sum_tree_single_leaf() {
    let mut tree = SumTree::new(0, 1);
    tree.update_leaf_node_sample(0, i64::MAX);
    assert_eq!(tree.get_root_sum(), i64::MAX as i128);
    tree.update_leaf_node_sample(0, i64::MIN);
    assert_eq!(tree.get_root_sum(), i64::MIN as i128);
}

#[test]
fn sum_tree_extreme_values_sum_exactly() {
    let mut tree = SumTree::new(0, 3);
    tree.update_leaf_node_sample(0, i64::MAX);
    tree.update_leaf_node_sample(1, i64::MAX);
    tree.update_leaf_node_sample(2, i64::MAX);
    assert_eq!(tree.get_root_sum(), 3 * (i64::MAX as i128));
}
