use smart_pointers::counted::RcStore;
use smart_pointers::shared::{demo_rc_counts, RcList, TreeNode1};
use std::rc::Rc;

#[test]
fn lists_share_a_tail() {
    let tail = Rc::new(RcList::Cons(10, Rc::new(RcList::Cons(20, Rc::new(RcList::Nil)))));
    let list1 = RcList::Cons(1, Rc::clone(&tail));
    let list2 = RcList::Cons(2, Rc::clone(&tail));
    assert_eq!(list1.to_vec(), vec![1, 10, 20]);
    assert_eq!(list2.to_vec(), vec![2, 10, 20]);
    assert_eq!(tail.to_vec(), vec![10, 20]);
}

#[test]
fn shared_subtree_inorder() {
    let shared_leaf = Rc::new(TreeNode1::new(42));
    let left = Rc::new(TreeNode1::with_children(1, Some(Rc::clone(&shared_leaf)), None));
    let right = Rc::new(TreeNode1::with_children(2, None, Some(Rc::clone(&shared_leaf))));
    let root = Rc::new(TreeNode1::with_children(0, Some(left), Some(right)));
    assert_eq!(TreeNode1::inorder(Some(&root)), vec![42, 1, 0, 2, 42]);
    assert_eq!(TreeNode1::inorder(None), Vec::<i32>::new());
}

#[test]
fn rc_counts_follow_scopes() {
    assert_eq!(demo_rc_counts(), vec![1, 2, 3, 2]);
}

#[test]
fn clone_and_release_change_count_by_one() {
    let mut store: RcStore<i32> = RcStore::new();
    let h = store.insert(7);
    assert_eq!(store.strong_count(&h), 1);
    let c = store.clone_handle(&h);
    assert_eq!(store.strong_count(&h), 2);
    assert_eq!(*store.get(&c), 7);
    store.release(c);
    assert_eq!(store.strong_count(&h), 1);
}

#[test]
fn weak_handle_fails_after_last_release() {
    let mut store: RcStore<i32> = RcStore::new();
    let h = store.insert(5);
    let w = store.downgrade(&h);
    assert_eq!(store.weak_count(&h), 1);
    let up = store.upgrade(&w).unwrap();
    assert_eq!(store.strong_count(&up), 2);
    store.release(up);
    assert!(store.resolves(&w));
    let idx = h.index;
    store.release(h);
    assert!(!store.resolves(&w));
    assert!(store.upgrade(&w).is_none());
    assert_eq!(w.index, idx);
}

#[test]
fn replace_is_seen_through_every_handle() {
    let mut store: RcStore<i32> = RcStore::new();
    let h = store.insert(1);
    let c = store.clone_handle(&h);
    assert_eq!(store.replace(&h, 9), 1);
    assert_eq!(*store.get(&c), 9);
}
