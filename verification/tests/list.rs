use balanced_tree::list::ListNode;

#[test]
fn new_list_is_empty() {
    let l: ListNode<u64> = ListNode::new();
    assert_eq!(l, ListNode::Nil);
    assert_eq!(l.into_vec(), Vec::<u64>::new());
}

#[test]
fn default_list_is_empty() {
    let l: ListNode<u64> = Default::default();
    assert_eq!(l, ListNode::Nil);
}

#[test]
fn insert_appends_at_tail() {
    let mut l = ListNode::new();
    l.insert(1u64);
    l.insert(2);
    l.insert(3);
    assert_eq!(l.into_vec(), vec![1, 2, 3]);
}

#[test]
fn delete_removes_first_node() {
    let mut l = ListNode::from_vec(vec![1u64, 2, 3]);
    l.delete();
    assert_eq!(l.into_vec(), vec![2, 3]);
}

#[test]
fn delete_on_empty_is_noop() {
    let mut l: ListNode<u64> = ListNode::new();
    l.delete();
    assert_eq!(l, ListNode::Nil);
}

#[test]
fn delete_to_empty() {
    let mut l = ListNode::from_vec(vec![9u64]);
    l.delete();
    assert_eq!(l, ListNode::Nil);
}

#[test]
fn reverse_reverses_order() {
    let mut l = ListNode::from_vec(vec![1u64, 2, 3, 4]);
    l.reverse();
    assert_eq!(l.into_vec(), vec![4, 3, 2, 1]);
}

#[test]
fn reverse_empty_and_single() {
    let mut l: ListNode<u64> = ListNode::new();
    l.reverse();
    assert_eq!(l, ListNode::Nil);

    let mut l = ListNode::from_vec(vec![5u64]);
    l.reverse();
    assert_eq!(l.into_vec(), vec![5]);
}

#[test]
fn reverse_twice_is_identity() {
    let mut l = ListNode::from_vec(vec![1u64, 2, 3]);
    l.reverse();
    l.reverse();
    assert_eq!(l.into_vec(), vec![1, 2, 3]);
}

#[test]
fn vec_round_trip_preserves_order() {
    let l = ListNode::from_vec(vec![3u64, 1, 2, 1]);
    assert_eq!(l.into_vec(), vec![3, 1, 2, 1]);
}

#[test]
fn list_equality_compares_elements() {
    let a = ListNode::from_vec(vec![1u64, 2]);
    let b = ListNode::from_vec(vec![1u64, 2]);
    let c = ListNode::from_vec(vec![2u64, 1]);
    assert_eq!(a, b);
    assert_ne!(a, c);
}

#[test]
fn works_with_non_numeric_elements() {
    let mut l = ListNode::new();
    l.insert(String::from("a"));
    l.insert(String::from("b"));
    l.reverse();
    assert_eq!(l.into_vec(), vec![String::from("b"), String::from("a")]);
}
