use refcount::cell::{BorrowState, Cell};
use refcount::rc::{Link, Store, Weak};

#[test]
fn clone_raises_and_release_lowers_strong_count() {
    let mut store: Store<u32> = Store::new();
    let a = store.new_shared(7);
    assert_eq!(store.strong_count(&a), 1);
    let c = store.clone_shared(&a);
    assert_eq!(store.strong_count(&a), 2);
    let d = store.clone_shared(&c);
    assert_eq!(store.strong_count(&a), 3);
    store.drop_shared(d);
    assert_eq!(store.strong_count(&a), 2);
    store.drop_shared(c);
    assert_eq!(store.strong_count(&a), 1);
    assert_eq!(*store.get(&a), 7);
}

#[test]
fn weak_handles_expire_after_last_release() {
    let mut store: Store<String> = Store::new();
    let a = store.new_shared(String::from("payload"));
    let b = store.clone_shared(&a);
    let w1 = store.downgrade(&a);
    let w2 = store.downgrade(&b);
    assert_eq!(store.weak_count(&a), 2);
    let up = store.upgrade(&w1).expect("payload still alive");
    assert_eq!(store.strong_count(&a), 3);
    store.drop_shared(up);
    store.drop_shared(b);
    assert_eq!(store.strong_count_weak(&w2), 1);
    store.drop_shared(a);
    assert_eq!(store.strong_count_weak(&w1), 0);
    assert!(store.upgrade(&w1).is_none());
    assert!(store.upgrade(&w2).is_none());
}

#[test]
fn empty_weak_never_upgrades() {
    let mut store: Store<u8> = Store::new();
    let w = Weak::new_empty();
    assert!(store.upgrade(&w).is_none());
    store.drop_weak(w);
}

#[test]
fn shared_and_weak_counts_example() {
    let mut store: Store<i32> = Store::new();
    let a = store.new_shared(5);
    assert_eq!(store.strong_count(&a), 1);
    let a2 = store.clone_shared(&a);
    assert_eq!(store.strong_count(&a), 2);
    let w = store.downgrade(&a);
    assert_eq!(store.weak_count(&a), 1);
    store.drop_shared(a);
    store.drop_shared(a2);
    assert!(store.upgrade(&w).is_none());
}

#[test]
fn strong_cycle_leaks() {
    let mut store: Store<&str> = Store::new();
    let a = store.new_shared("A");
    let b = store.new_shared("B");
    let b_for_a = store.clone_shared(&b);
    store.attach(&a, Link::Strong(b_for_a));
    let a_for_b = store.clone_shared(&a);
    store.attach(&b, Link::Strong(a_for_b));
    assert_eq!(store.strong_count(&a), 2);
    assert_eq!(store.strong_count(&b), 2);
    let wa = store.downgrade(&a);
    let wb = store.downgrade(&b);
    store.drop_shared(a);
    store.drop_shared(b);
    // Each block is still owned by the other: neither payload is destroyed.
    assert_eq!(store.strong_count_weak(&wa), 1);
    assert_eq!(store.strong_count_weak(&wb), 1);
    let a = store.upgrade(&wa).expect("A is kept alive by B");
    assert_eq!(*store.get(&a), "A");
    store.drop_shared(a);
    assert_eq!(store.strong_count_weak(&wa), 1);
    assert_eq!(store.strong_count_weak(&wb), 1);
}

#[test]
fn weak_back_edge_breaks_cycle() {
    let mut store: Store<&str> = Store::new();
    let a = store.new_shared("A");
    let b = store.new_shared("B");
    let b_for_a = store.clone_shared(&b);
    store.attach(&a, Link::Strong(b_for_a));
    let a_weak = store.downgrade(&a);
    store.attach(&b, Link::Weak(a_weak));
    let wa = store.downgrade(&a);
    let wb = store.downgrade(&b);
    store.drop_shared(a);
    assert_eq!(store.strong_count_weak(&wa), 0);
    assert_eq!(store.strong_count_weak(&wb), 1);
    store.drop_shared(b);
    assert_eq!(store.strong_count_weak(&wb), 0);
    assert!(store.upgrade(&wb).is_none());
    assert!(store.upgrade(&wa).is_none());
}

#[test]
fn weak_back_edge_breaks_cycle_step_by_step() {
    let mut store: Store<&str> = Store::new();
    let a = store.new_shared("A");
    let b = store.new_shared("B");
    let b_for_a = store.clone_shared(&b);
    store.attach(&a, Link::Strong(b_for_a));
    let a_weak = store.downgrade(&a);
    store.attach(&b, Link::Weak(a_weak));
    let wa = store.downgrade(&a);
    let wb = store.downgrade(&b);
    store.drop_shared(a);
    // A's payload is gone and it released its strong link to B.
    assert!(store.upgrade(&wa).is_none());
    let probe = store.upgrade(&wb).expect("B still has its own handle");
    assert_eq!(store.strong_count(&probe), 2);
    store.drop_shared(probe);
    store.drop_shared(b);
    assert!(store.upgrade(&wb).is_none());
    store.drop_weak(wa);
    store.drop_weak(wb);
    // Both blocks are reclaimed, so new values reuse their slots.
    let c = store.new_shared("C");
    let d = store.new_shared("D");
    let e = store.new_shared("E");
    assert_eq!(store.strong_count(&c), 1);
    assert_eq!(*store.get(&c), "C");
    assert_eq!(*store.get(&d), "D");
    assert_eq!(*store.get(&e), "E");
}

#[test]
fn cascade_releases_a_chain() {
    let mut store: Store<u32> = Store::new();
    let head = store.new_shared(1);
    let mut watchers = vec![store.downgrade(&head)];
    let mut tail = store.clone_shared(&head);
    for v in 2..6 {
        let next = store.new_shared(v);
        watchers.push(store.downgrade(&next));
        let keep = store.clone_shared(&next);
        store.attach(&tail, Link::Strong(next));
        store.drop_shared(tail);
        tail = keep;
    }
    store.drop_shared(tail);
    for w in watchers.iter() {
        assert_eq!(store.strong_count_weak(w), 1);
    }
    // The head is the last owner of the whole chain.
    store.drop_shared(head);
    for w in watchers.iter() {
        assert_eq!(store.strong_count_weak(w), 0);
        assert!(store.upgrade(w).is_none());
    }
}

#[test]
fn detach_returns_last_link() {
    let mut store: Store<u32> = Store::new();
    let a = store.new_shared(1);
    assert!(store.detach(&a).is_none());
    let b = store.new_shared(2);
    let wb = store.downgrade(&b);
    store.attach(&a, Link::Strong(b));
    match store.detach(&a) {
        Some(Link::Strong(b)) => {
            assert_eq!(*store.get(&b), 2);
            store.drop_shared(b);
        }
        _ => panic!("expected the strong link"),
    }
    assert!(store.upgrade(&wb).is_none());
    assert_eq!(*store.get(&a), 1);
}

#[test]
fn shared_owners_mutate_through_cell() {
    let mut store: Store<Cell<i32>> = Store::new();
    let value = store.new_shared(Cell::new(5));
    let other = store.clone_shared(&value);
    let m = store.try_borrow_mut_cell(&other).expect("nobody reads yet");
    let old = store.replace_cell(&other, &m, 15);
    assert_eq!(old, 5);
    assert!(store.try_borrow_cell(&value).is_err());
    assert!(store.try_borrow_mut_cell(&value).is_err());
    store.release_mut_cell(&other, m);
    let g1 = store.try_borrow_cell(&value).expect("writer is gone");
    let g2 = store.try_borrow_cell(&other).expect("readers share");
    assert_eq!(store.get(&value).borrow_state(), BorrowState::Shared(2));
    assert_eq!(*store.get(&value).get(&g1), 15);
    assert!(store.try_borrow_mut_cell(&value).is_err());
    store.release_cell(&value, g1);
    store.release_cell(&other, g2);
    assert_eq!(store.get(&value).borrow_state(), BorrowState::Unshared);
    let m = store.try_borrow_mut_cell(&value).expect("all readers left");
    store.release_mut_cell(&value, m);
}
