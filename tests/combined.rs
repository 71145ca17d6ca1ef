use smart_pointers::cell::{BorrowCell, BorrowError};
use smart_pointers::combined::{run_trap, GraphNode, Person, Trap};
use smart_pointers::counted::RcStore;

#[test]
fn befriend_makes_a_cycle() {
    let mut store: RcStore<Person> = RcStore::new();
    let alice = Person::new(&mut store, "Alice");
    let bob = Person::new(&mut store, "Bob");
    Person::befriend(&mut store, &alice, &bob);
    let a_friend = store.get(&alice).friend.as_ref().unwrap().index;
    let b_friend = store.get(&bob).friend.as_ref().unwrap().index;
    assert_eq!(store.get(&store_handle(a_friend)).name, "Bob");
    assert_eq!(store.get(&store_handle(b_friend)).name, "Alice");
    assert_eq!(store.strong_count(&alice), 2);
    assert_eq!(store.strong_count(&bob), 2);
    let (ai, bi) = (alice.index, bob.index);
    store.release(alice);
    store.release(bob);
    assert_eq!(store.strong_count(&store_handle(ai)), 1);
    assert_eq!(store.strong_count(&store_handle(bi)), 1);
}

#[test]
fn befriend_gives_up_the_old_friend() {
    let mut store: RcStore<Person> = RcStore::new();
    let alice = Person::new(&mut store, "Alice");
    let bob = Person::new(&mut store, "Bob");
    let carol = Person::new(&mut store, "Carol");
    Person::befriend(&mut store, &alice, &bob);
    assert_eq!(store.strong_count(&bob), 2);
    Person::befriend(&mut store, &alice, &carol);
    assert_eq!(store.strong_count(&bob), 1);
    assert_eq!(store.strong_count(&carol), 2);
    assert_eq!(store.strong_count(&alice), 3);
    assert_eq!(store.get(&bob).friend.as_ref().unwrap().index, alice.index);
    assert_eq!(store.get(&alice).friend.as_ref().unwrap().index, carol.index);
}

#[test]
fn befriend_oneself() {
    let mut store: RcStore<Person> = RcStore::new();
    let alice = Person::new(&mut store, "Alice");
    Person::befriend(&mut store, &alice, &alice);
    assert_eq!(store.strong_count(&alice), 2);
    assert_eq!(store.get(&alice).friend.as_ref().unwrap().index, alice.index);
}

fn store_handle(index: usize) -> smart_pointers::counted::Handle {
    smart_pointers::counted::Handle { index }
}

#[test]
fn graph_triangle_neighbors() {
    let mut store: RcStore<GraphNode> = RcStore::new();
    let a = GraphNode::new(&mut store, "A");
    let b = GraphNode::new(&mut store, "B");
    let c = GraphNode::new(&mut store, "C");
    GraphNode::connect(&mut store, &a, &b);
    GraphNode::connect(&mut store, &b, &c);
    GraphNode::connect(&mut store, &c, &a);
    assert_eq!(GraphNode::neighbor_names(&store, &a), vec!["B".to_string(), "C".to_string()]);
    assert_eq!(GraphNode::neighbor_names(&store, &b), vec!["A".to_string(), "C".to_string()]);
    assert_eq!(GraphNode::neighbor_names(&store, &c), vec!["B".to_string(), "A".to_string()]);
    assert_eq!(store.strong_count(&a), 1);
    assert_eq!(store.weak_count(&a), 2);
}

#[test]
fn graph_skips_released_neighbor() {
    let mut store: RcStore<GraphNode> = RcStore::new();
    let a = GraphNode::new(&mut store, "A");
    let b = GraphNode::new(&mut store, "B");
    let c = GraphNode::new(&mut store, "C");
    GraphNode::connect(&mut store, &a, &b);
    GraphNode::connect(&mut store, &a, &c);
    store.release(b);
    assert_eq!(GraphNode::neighbor_names(&store, &a), vec!["C".to_string()]);
}

#[test]
fn trap_refuses_second_write_access() {
    let mut trap = Trap::new(10);
    assert_eq!(trap.double_mut_borrow(), Err(BorrowError::AlreadyMutablyBorrowed));
    assert_eq!(trap.double_mut_borrow(), Err(BorrowError::AlreadyMutablyBorrowed));
    assert_eq!(run_trap(), Err(BorrowError::AlreadyMutablyBorrowed));
}

#[test]
fn write_access_refused_while_reading() {
    let mut cell = BorrowCell::new(1);
    assert_eq!(cell.borrow(), Ok(()));
    assert_eq!(cell.borrow(), Ok(()));
    assert_eq!(cell.borrow_mut(), Err(BorrowError::AlreadyBorrowed));
    assert_eq!(*cell.try_read().unwrap(), 1);
    cell.release();
    cell.release();
    assert_eq!(cell.borrow_mut(), Ok(()));
    assert_eq!(cell.borrow(), Err(BorrowError::AlreadyMutablyBorrowed));
    assert_eq!(cell.try_read(), Err(BorrowError::AlreadyMutablyBorrowed));
    cell.write(5);
    assert_eq!(cell.replace(6), 5);
    cell.release_mut();
    assert_eq!(*cell.try_read().unwrap(), 6);
}
