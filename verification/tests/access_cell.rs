use smart_pointers::access_cell::{AccessCell, BorrowState};
use smart_pointers::fault::Fault;
use smart_pointers::owner_cell::OwnerArena;

#[test]
fn new_cell_is_unborrowed() {
    let cell = AccessCell::new(5);
    assert_eq!(cell.state(), BorrowState::Unborrowed);
    assert_eq!(cell.peek(), Some(&5));
    assert_eq!(cell.into_inner(), 5);
}

#[test]
fn exclusive_borrow_excludes_all_until_released() {
    let mut cell = AccessCell::new(5);
    let guard = cell.borrow_exclusive().unwrap();
    assert_eq!(cell.state(), BorrowState::ExclusiveBorrowed);
    assert_eq!(cell.borrow_shared().unwrap_err(), Fault::BorrowConflict);
    assert_eq!(cell.borrow_exclusive().unwrap_err(), Fault::BorrowConflict);
    assert_eq!(cell.peek(), None);
    assert_eq!(cell.state(), BorrowState::ExclusiveBorrowed);
    assert_eq!(cell.release_exclusive(guard), Ok(()));
    assert_eq!(cell.state(), BorrowState::Unborrowed);
    let reader = cell.borrow_shared().unwrap();
    assert_eq!(cell.release_shared(reader), Ok(()));
    let writer = cell.borrow_exclusive().unwrap();
    assert_eq!(cell.release_exclusive(writer), Ok(()));
}

#[test]
fn shared_borrows_count_up_and_down() {
    let mut cell = AccessCell::new(5);
    let a = cell.borrow_shared().unwrap();
    assert_eq!(cell.state(), BorrowState::SharedBorrowed(1));
    let b = cell.borrow_shared().unwrap();
    let c = cell.borrow_shared().unwrap();
    assert_eq!(cell.state(), BorrowState::SharedBorrowed(3));
    assert_eq!(cell.read(&a), Some(&5));
    assert_eq!(cell.borrow_exclusive().unwrap_err(), Fault::BorrowConflict);
    assert_eq!(cell.release_shared(a), Ok(()));
    assert_eq!(cell.state(), BorrowState::SharedBorrowed(2));
    assert_eq!(cell.borrow_exclusive().unwrap_err(), Fault::BorrowConflict);
    assert_eq!(cell.release_shared(b), Ok(()));
    assert_eq!(cell.release_shared(c), Ok(()));
    assert_eq!(cell.state(), BorrowState::Unborrowed);
    assert!(cell.borrow_exclusive().is_ok());
}

#[test]
fn write_needs_the_exclusive_borrow() {
    let mut cell = AccessCell::new(5);
    let guard = cell.borrow_exclusive().unwrap();
    assert_eq!(cell.read_exclusive(&guard), Some(&5));
    assert_eq!(cell.write(&guard, 15), Ok(5));
    assert_eq!(cell.read_exclusive(&guard), Some(&15));
    assert_eq!(cell.release_exclusive(guard), Ok(()));
    assert_eq!(cell.peek(), Some(&15));

    let mut other = AccessCell::new(1);
    let stale = other.borrow_exclusive().unwrap();
    // `cell` is unborrowed now: a guard of another cell opens nothing here.
    assert_eq!(cell.write(&stale, 99), Err(99));
    assert_eq!(cell.read_exclusive(&stale), None);
    assert_eq!(cell.peek(), Some(&15));
}

#[test]
fn read_needs_a_shared_borrow() {
    let mut cell = AccessCell::new(5);
    let mut other = AccessCell::new(1);
    let foreign = other.borrow_shared().unwrap();
    assert_eq!(cell.read(&foreign), None);
    let own = cell.borrow_shared().unwrap();
    assert_eq!(cell.read(&own), Some(&5));
}

#[test]
fn giving_back_what_is_not_held_reports_over_release() {
    let mut held = AccessCell::new(1);
    let reader = held.borrow_shared().unwrap();
    let mut idle = AccessCell::new(2);
    assert_eq!(idle.release_shared(reader), Err(Fault::OverRelease));
    assert_eq!(idle.state(), BorrowState::Unborrowed);

    let mut held = AccessCell::new(1);
    let writer = held.borrow_exclusive().unwrap();
    let mut read = AccessCell::new(2);
    let _r = read.borrow_shared().unwrap();
    assert_eq!(read.release_exclusive(writer), Err(Fault::OverRelease));
    assert_eq!(read.state(), BorrowState::SharedBorrowed(1));
}

#[test]
fn shared_value_mutation_is_seen_by_all_owners() {
    let mut arena: OwnerArena<AccessCell<i32>> = OwnerArena::new();
    let value = arena.wrap(AccessCell::new(5));
    let in_a = arena.clone_strong(value);
    assert_eq!(arena.strong_count(value), 2);
    // *value.borrow_mut() += 10
    let mut cell = arena.replace(value, AccessCell::new(0)).ok().unwrap();
    let guard = cell.borrow_exclusive().unwrap();
    let old = *cell.read_exclusive(&guard).unwrap();
    assert_eq!(cell.write(&guard, old + 10), Ok(5));
    assert_eq!(cell.release_exclusive(guard), Ok(()));
    assert!(arena.replace(value, cell).is_ok());
    assert_eq!(arena.get(in_a).unwrap().peek(), Some(&15));
    assert_eq!(arena.get(value).unwrap().peek(), Some(&15));
}

#[test]
fn scoped_shared_borrow_leaves_the_cell_as_found() {
    let mut cell = AccessCell::new(5);
    assert_eq!(cell.with_shared(|v| *v + 1), Ok(6));
    assert_eq!(cell.state(), BorrowState::Unborrowed);
    let reader = cell.borrow_shared().unwrap();
    assert_eq!(cell.with_shared(|v| *v * 2), Ok(10));
    assert_eq!(cell.state(), BorrowState::SharedBorrowed(1));
    assert_eq!(cell.release_shared(reader), Ok(()));
    let writer = cell.borrow_exclusive().unwrap();
    assert_eq!(cell.with_shared(|v| *v), Err(Fault::BorrowConflict));
    assert_eq!(cell.state(), BorrowState::ExclusiveBorrowed);
    assert_eq!(cell.release_exclusive(writer), Ok(()));
}

#[test]
fn scoped_exclusive_borrow_changes_the_value_and_lets_go() {
    let mut cell = AccessCell::new(5);
    let before = cell.with_exclusive(|v| {
        let old = *v;
        *v += 10;
        old
    });
    assert_eq!(before, Ok(5));
    assert_eq!(cell.peek(), Some(&15));
    assert_eq!(cell.state(), BorrowState::Unborrowed);

    let reader = cell.borrow_shared().unwrap();
    assert_eq!(cell.with_exclusive(|v| *v = 0), Err(Fault::BorrowConflict));
    assert_eq!(cell.read(&reader), Some(&15));
    assert_eq!(cell.state(), BorrowState::SharedBorrowed(1));
    assert_eq!(cell.release_shared(reader), Ok(()));
    assert_eq!(cell.with_exclusive(|v| *v = 0), Ok(()));
    assert_eq!(cell.into_inner(), 0);
}
