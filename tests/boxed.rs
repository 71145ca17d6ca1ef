use smart_pointers::boxed::{List, TreeNode};

#[test]
fn prepend_gives_reverse_order() {
    let list = List::new().prepend(3).prepend(2).prepend(1);
    assert_eq!(list.to_vec(), vec![1, 2, 3]);
}

#[test]
fn empty_list_has_no_values() {
    assert_eq!(List::new().to_vec(), Vec::<i32>::new());
}

#[test]
fn tree_inorder_is_sorted() {
    let tree = Box::new(TreeNode::new(5)).insert(3).insert(7).insert(1).insert(4);
    assert_eq!(tree.inorder(), vec![1, 3, 4, 5, 7]);
}

#[test]
fn tree_equal_values_go_right() {
    let tree = Box::new(TreeNode::new(5)).insert(5).insert(2).insert(5);
    assert!(tree.left.is_some());
    assert_eq!(tree.right.as_ref().unwrap().value, 5);
    assert_eq!(tree.inorder(), vec![2, 5, 5, 5]);
}

#[test]
fn tree_extreme_values() {
    let tree = Box::new(TreeNode::new(0)).insert(i32::MAX).insert(i32::MIN);
    assert_eq!(tree.inorder(), vec![i32::MIN, 0, i32::MAX]);
}
