use refcount::cell::{BorrowState, Cell};

#[test]
fn readers_exclude_writer_until_released() {
    let mut c = Cell::new(10);
    let g1 = c.try_borrow().expect("first reader");
    let g2 = c.try_borrow().expect("second reader");
    assert_eq!(c.borrow_state(), BorrowState::Shared(2));
    assert_eq!(*c.get(&g1), 10);
    assert!(c.try_borrow_mut().is_err());
    c.release(g1);
    assert_eq!(c.borrow_state(), BorrowState::Shared(1));
    assert!(c.try_borrow_mut().is_err());
    c.release(g2);
    assert_eq!(c.borrow_state(), BorrowState::Unshared);
    let m = c.try_borrow_mut().expect("writer after readers left");
    assert_eq!(c.borrow_state(), BorrowState::Exclusive);
    c.release_mut(m);
}

#[test]
fn writer_excludes_readers_and_writers() {
    let mut c = Cell::new(String::from("old"));
    let m = c.borrow_mut();
    assert!(c.try_borrow().is_err());
    assert!(c.try_borrow_mut().is_err());
    assert_eq!(c.borrow_state(), BorrowState::Exclusive);
    let before = c.replace(&m, String::from("new"));
    assert_eq!(before, "old");
    c.release_mut(m);
    let g = c.borrow();
    assert_eq!(c.get(&g), "new");
    c.release(g);
    assert_eq!(c.into_inner(), "new");
}

#[test]
fn refused_borrow_leaves_state_unchanged() {
    let mut c = Cell::new(1u8);
    let g = c.borrow();
    let err = c.try_borrow_mut();
    assert!(err.is_err());
    assert_eq!(c.borrow_state(), BorrowState::Shared(1));
    c.release(g);
    assert_eq!(c.borrow_state(), BorrowState::Unshared);
}
