use balanced_tree::tree::TreeNode;

fn leaf() -> TreeNode {
    TreeNode::new()
}

#[test]
fn empty_tree_behavior() {
    let t = TreeNode::new();
    assert_eq!(t.height(), 0);
    assert!(t.validate());

    let mut t = TreeNode::new();
    t.insert(7);
    assert_eq!(t, TreeNode::node(7, leaf(), leaf()));
    assert_eq!(t.height(), 1);
    assert!(t.validate());
}

#[test]
fn default_is_empty() {
    let t: TreeNode = Default::default();
    assert_eq!(t, TreeNode::Leaf);
}

#[test]
fn node_builds_given_shape() {
    let t = TreeNode::node(2, TreeNode::node(1, leaf(), leaf()), leaf());
    assert_eq!(t.height(), 2);
    assert!(t.validate());
}

#[test]
fn left_rotate_three_node_chain() {
    // Node(1, Empty, Node(2, Empty, Node(3, Empty, Empty)))
    let mut t = TreeNode::node(1, leaf(), TreeNode::node(2, leaf(), TreeNode::node(3, leaf(), leaf())));
    assert!(!t.validate());
    t.left_rotate();
    let expected = TreeNode::node(2, TreeNode::node(1, leaf(), leaf()), TreeNode::node(3, leaf(), leaf()));
    assert_eq!(t, expected);
    assert!(t.validate());
}

#[test]
fn insert_sequence_rebalances_chain() {
    let mut t = TreeNode::new();
    t.insert(1);
    t.insert(2);
    t.insert(3);
    let expected = TreeNode::node(2, TreeNode::node(1, leaf(), leaf()), TreeNode::node(3, leaf(), leaf()));
    assert_eq!(t, expected);
}

#[test]
fn right_rotate_three_node_chain() {
    let mut t = TreeNode::node(3, TreeNode::node(2, TreeNode::node(1, leaf(), leaf()), leaf()), leaf());
    t.right_rotate();
    let expected = TreeNode::node(2, TreeNode::node(1, leaf(), leaf()), TreeNode::node(3, leaf(), leaf()));
    assert_eq!(t, expected);
}

#[test]
fn double_rotation_case() {
    // 3, 1, 2 exercises the right-left double rotation path.
    let mut t = TreeNode::new();
    t.insert(3);
    t.insert(1);
    t.insert(2);
    let expected = TreeNode::node(2, TreeNode::node(1, leaf(), leaf()), TreeNode::node(3, leaf(), leaf()));
    assert_eq!(t, expected);
}

#[test]
fn double_rotation_mirror_case() {
    // 1, 3, 2 exercises the left-right double rotation path.
    let mut t = TreeNode::new();
    t.insert(1);
    t.insert(3);
    t.insert(2);
    let expected = TreeNode::node(2, TreeNode::node(1, leaf(), leaf()), TreeNode::node(3, leaf(), leaf()));
    assert_eq!(t, expected);
}

#[test]
fn rotation_without_pivot_child_is_noop() {
    let mut t = TreeNode::new();
    t.left_rotate();
    assert_eq!(t, TreeNode::Leaf);
    t.right_rotate();
    assert_eq!(t, TreeNode::Leaf);

    let mut t = TreeNode::node(5, TreeNode::node(3, leaf(), leaf()), leaf());
    let copy = t.clone();
    t.left_rotate();
    assert_eq!(t, copy);

    let mut t = TreeNode::node(5, leaf(), TreeNode::node(8, leaf(), leaf()));
    let copy = t.clone();
    t.right_rotate();
    assert_eq!(t, copy);
}

#[test]
fn validate_after_every_insertion() {
    let values = [41u64, 18467, 6334, 26500, 19169, 15724, 11478, 29358, 26962, 24464, 5705, 28145,
        23281, 16827, 9961, 491, 2995, 11942, 4827, 5436, 32391, 14604, 3902, 153, 292, 12382,
        17421, 18716, 19718, 19895, 5447, 21726, 14771, 11538, 1869, 19912, 25667, 26299, 17035,
        9894, 28703, 23811, 31322, 30333, 17673, 4664, 15141, 7711, 28253, 6868];
    let mut t = TreeNode::new();
    for v in values {
        t.insert(v);
        assert!(t.validate());
    }
}

#[test]
fn height_bound_for_ascending_inserts() {
    let mut t = TreeNode::new();
    for v in 1..=100u64 {
        t.insert(v);
        assert!(t.validate());
    }
    // ceil(1.44 * log2(100 + 2)) == 10, the AVL worst-case bound.
    assert!(t.height() <= 10);
}

#[test]
fn round_trip_sorts_and_dedups() {
    let t = TreeNode::from_vec(vec![5, 3, 8, 3, 1, 9, 5, 2]);
    assert!(t.validate());
    assert_eq!(t.into_vec(), vec![1, 2, 3, 5, 8, 9]);
}

#[test]
fn round_trip_empty_and_single() {
    assert_eq!(TreeNode::from_vec(vec![]).into_vec(), Vec::<u64>::new());
    assert_eq!(TreeNode::from_vec(vec![42]).into_vec(), vec![42]);
}

#[test]
fn round_trip_independent_of_order() {
    let a = TreeNode::from_vec(vec![1, 2, 3, 4, 5]);
    let b = TreeNode::from_vec(vec![5, 4, 3, 2, 1]);
    assert_eq!(a.into_vec(), b.into_vec());
}

#[test]
fn duplicate_insert_is_noop() {
    let mut t = TreeNode::from_vec(vec![4, 2, 6, 1, 3, 5, 7]);
    let before = t.clone();
    let height_before = t.height();
    t.insert(6);
    assert_eq!(t, before);
    assert_eq!(t.height(), height_before);
    assert_eq!(t.into_vec(), vec![1, 2, 3, 4, 5, 6, 7]);
}

#[test]
fn equality_is_structural() {
    // Same contents, different shapes: unequal.
    let balanced = TreeNode::node(2, TreeNode::node(1, leaf(), leaf()), TreeNode::node(3, leaf(), leaf()));
    let chain = TreeNode::node(1, leaf(), TreeNode::node(2, leaf(), TreeNode::node(3, leaf(), leaf())));
    assert_ne!(balanced, chain);
    assert_eq!(balanced.clone().into_vec(), chain.clone().into_vec());
    assert_eq!(balanced, balanced.clone());
}

#[test]
fn is_balanced_detects_imbalance() {
    let chain = TreeNode::node(1, leaf(), TreeNode::node(2, leaf(), TreeNode::node(3, leaf(), leaf())));
    assert!(!chain.is_balanced());
    assert!(!chain.validate());
    let balanced = TreeNode::node(2, TreeNode::node(1, leaf(), leaf()), TreeNode::node(3, leaf(), leaf()));
    assert!(balanced.is_balanced());
}

#[test]
fn validate_detects_bst_violation() {
    // Perfectly balanced in height, but values out of order.
    let t = TreeNode::node(1, TreeNode::node(2, leaf(), leaf()), TreeNode::node(3, leaf(), leaf()));
    assert!(t.is_balanced());
    assert!(!t.validate());
}
