use smart_pointers::counted::RcStore;
use smart_pointers::interior::{Counter, SharedLog, TreeNode2};

#[test]
fn counter_increments_and_resets() {
    let mut counter = Counter::new(0);
    counter.increment();
    counter.increment();
    assert_eq!(counter.get(), 2);
    counter.reset();
    assert_eq!(counter.get(), 0);
}

#[test]
fn counter_starts_at_initial() {
    let mut counter = Counter::new(-3);
    assert_eq!(counter.get(), -3);
    counter.increment();
    assert_eq!(counter.get(), -2);
}

#[test]
fn log_keeps_insertion_order() {
    let mut log = SharedLog::new();
    assert!(log.entries().is_empty());
    log.log("App started");
    log.log("User logged in");
    assert_eq!(log.entries(), vec!["App started".to_string(), "User logged in".to_string()]);
}

#[test]
fn log_shared_by_two_handles() {
    let mut store: RcStore<SharedLog> = RcStore::new();
    let first = store.insert(SharedLog::new());
    let second = store.clone_handle(&first);
    let mut log = store.replace(&first, SharedLog::new());
    log.log("App started");
    store.replace(&first, log);
    let mut log = store.replace(&second, SharedLog::new());
    log.log("User logged in");
    store.replace(&second, log);
    assert_eq!(
        store.get(&first).entries(),
        vec!["App started".to_string(), "User logged in".to_string()]
    );
}

#[test]
fn mutable_tree_with_shared_leaf() {
    let mut store: RcStore<TreeNode2> = RcStore::new();
    let shared_leaf = TreeNode2::new(&mut store, 99);
    let left = TreeNode2::new(&mut store, 1);
    let leaf_for_left = TreeNode2::share(&mut store, &shared_leaf);
    TreeNode2::set_left(&mut store, &left, leaf_for_left);
    let right = TreeNode2::new(&mut store, 2);
    let leaf_for_right = TreeNode2::share(&mut store, &shared_leaf);
    TreeNode2::set_right(&mut store, &right, leaf_for_right);
    let root = TreeNode2::new(&mut store, 0);
    let root_index = root.index;
    let root_copy = TreeNode2::share(&mut store, &root);
    TreeNode2::set_left(&mut store, &root, left);
    TreeNode2::set_right(&mut store, &root, right);
    assert_eq!(store.strong_count(&shared_leaf), 3);
    assert_eq!(TreeNode2::inorder(&mut store, Some(root)), vec![99, 1, 0, 2, 99]);
    assert_eq!(store.strong_count(&root_copy), 1);
    assert_eq!(root_copy.index, root_index);
    assert_eq!(TreeNode2::inorder(&mut store, Some(root_copy)), vec![99, 1, 0, 2, 99]);
    assert_eq!(store.strong_count(&shared_leaf), 3);
    assert_eq!(TreeNode2::inorder(&mut store, None), Vec::<i32>::new());
}

#[test]
fn set_left_gives_up_the_old_child() {
    let mut store: RcStore<TreeNode2> = RcStore::new();
    let a = TreeNode2::new(&mut store, 1);
    let a_kept = TreeNode2::share(&mut store, &a);
    let b = TreeNode2::new(&mut store, 2);
    let parent = TreeNode2::new(&mut store, 3);
    TreeNode2::set_left(&mut store, &parent, a);
    assert_eq!(store.strong_count(&a_kept), 2);
    TreeNode2::set_left(&mut store, &parent, b);
    assert_eq!(store.strong_count(&a_kept), 1);
    let parent_index = parent.index;
    assert_eq!(TreeNode2::inorder(&mut store, Some(parent)), vec![2, 3]);
    assert!(!store.resolves(&smart_pointers::counted::WeakHandle { index: parent_index }));
}

#[test]
fn set_right_gives_up_the_last_handle() {
    let mut store: RcStore<TreeNode2> = RcStore::new();
    let a = TreeNode2::new(&mut store, 1);
    let a_index = a.index;
    let b = TreeNode2::new(&mut store, 2);
    let parent = TreeNode2::new(&mut store, 3);
    TreeNode2::set_right(&mut store, &parent, a);
    TreeNode2::set_right(&mut store, &parent, b);
    assert!(!store.resolves(&smart_pointers::counted::WeakHandle { index: a_index }));
    assert_eq!(TreeNode2::inorder(&mut store, Some(parent)), vec![3, 2]);
}

#[test]
fn newer_node_attached_under_shared_leaf() {
    let mut store: RcStore<TreeNode2> = RcStore::new();
    let shared_leaf = TreeNode2::new(&mut store, 99);
    let left = TreeNode2::new(&mut store, 1);
    let leaf_for_left = TreeNode2::share(&mut store, &shared_leaf);
    TreeNode2::set_left(&mut store, &left, leaf_for_left);
    let right = TreeNode2::new(&mut store, 2);
    let leaf_for_right = TreeNode2::share(&mut store, &shared_leaf);
    TreeNode2::set_right(&mut store, &right, leaf_for_right);
    let root = TreeNode2::new(&mut store, 0);
    TreeNode2::set_left(&mut store, &root, left);
    TreeNode2::set_right(&mut store, &root, right);
    let five = TreeNode2::new(&mut store, 5);
    TreeNode2::set_left(&mut store, &shared_leaf, five);
    assert_eq!(TreeNode2::inorder(&mut store, Some(root)), vec![5, 99, 1, 0, 2, 5, 99]);
}
