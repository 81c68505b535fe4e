use tree_status::leaf::node_idx_to_leaf_idx;

#[test]
fn leftmost_leaf_is_zero() {
    assert_eq!(node_idx_to_leaf_idx(1 << 14, 14), 0);
}

#[test]
fn rightmost_leaf() {
    assert_eq!(node_idx_to_leaf_idx((1 << 14) + (1 << 14) - 1, 14), (1 << 14) - 1);
}

#[test]
fn leaf_index_in_the_middle() {
    assert_eq!(node_idx_to_leaf_idx(32 + 5, 5), 5);
    assert_eq!(node_idx_to_leaf_idx(1, 0), 0);
    assert_eq!(node_idx_to_leaf_idx((1i64 << 62) + 7, 62), 7);
}
