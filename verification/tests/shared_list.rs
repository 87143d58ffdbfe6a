use smart_pointers::fault::Fault;
use smart_pointers::owner_cell::StrongHandle;
use smart_pointers::shared_list::ListStore;

/// Builds the list of `items` and gives up every handle but the one on the
/// list itself.
fn build(store: &mut ListStore, items: &[i32]) -> StrongHandle {
    let mut list = store.nil();
    for item in items.iter().rev() {
        let longer = store.cons(*item, list);
        assert_eq!(store.release(list), Ok(()));
        list = longer;
    }
    list
}

#[test]
fn nil_is_empty() {
    let mut store = ListStore::new();
    let n = store.nil();
    assert_eq!(store.head(n), None);
    assert_eq!(store.tail(n), None);
    assert_eq!(store.to_vec(n), Vec::<i32>::new());
    assert_eq!(store.strong_count(n), 1);
}

#[test]
fn cons_puts_an_item_in_front() {
    let mut store = ListStore::new();
    let n = store.nil();
    let one = store.cons(7, n);
    assert_eq!(store.head(one), Some(7));
    assert_eq!(store.tail(one), Some(n));
    assert_eq!(store.to_vec(one), vec![7]);
    assert_eq!(store.strong_count(n), 2);
    assert_eq!(store.strong_count(one), 1);
}

#[test]
fn counts_follow_the_lists_built_on_a_list() {
    let mut store = ListStore::new();
    let a = build(&mut store, &[5, 10]);
    assert_eq!(store.strong_count(a), 1);
    let b = store.cons(3, a);
    assert_eq!(store.strong_count(a), 2);
    {
        let c = store.cons(4, a);
        assert_eq!(store.strong_count(a), 3);
        assert_eq!(store.to_vec(c), vec![4, 5, 10]);
        assert_eq!(store.release(c), Ok(()));
    }
    assert_eq!(store.strong_count(a), 2);
    assert_eq!(store.to_vec(b), vec![3, 5, 10]);
    assert_eq!(store.to_vec(a), vec![5, 10]);
}

#[test]
fn structural_sharing_adds_exactly_one_to_the_shared_head() {
    let mut store = ListStore::new();
    let base = build(&mut store, &[1, 2, 3]);
    assert_eq!(store.to_vec(base), vec![1, 2, 3]);
    let before = store.strong_count(base);
    let longer = store.cons(0, base);
    assert_eq!(store.strong_count(base), before + 1);
    assert_eq!(store.tail(longer), Some(base));
    assert_eq!(store.to_vec(longer), vec![0, 1, 2, 3]);

    assert_eq!(store.release(longer), Ok(()));
    assert_eq!(store.strong_count(base), before);
    assert_eq!(store.strong_count(longer), 0);
    assert_eq!(store.head(longer), None);
    assert_eq!(store.to_vec(base), vec![1, 2, 3]);
    assert_eq!(store.head(base), Some(1));
}

#[test]
fn sharing_the_tail_of_a_list() {
    let mut store = ListStore::new();
    let base = build(&mut store, &[1, 2, 3]);
    let rest = store.tail(base).unwrap();
    assert_eq!(store.to_vec(rest), vec![2, 3]);
    assert_eq!(store.strong_count(rest), 1);
    let other = store.cons(0, rest);
    assert_eq!(store.strong_count(rest), 2);
    assert_eq!(store.strong_count(base), 1);
    assert_eq!(store.to_vec(other), vec![0, 2, 3]);
    // Giving up the base frees its first cell only.
    assert_eq!(store.release(base), Ok(()));
    assert_eq!(store.strong_count(base), 0);
    assert_eq!(store.strong_count(rest), 1);
    assert_eq!(store.to_vec(other), vec![0, 2, 3]);
}

#[test]
fn release_of_the_last_handle_frees_the_whole_chain() {
    let mut store = ListStore::new();
    let list = build(&mut store, &[1, 2, 3]);
    let second = store.tail(list).unwrap();
    let third = store.tail(second).unwrap();
    let end = store.tail(third).unwrap();
    assert_eq!(store.release(list), Ok(()));
    for cell in [list, second, third, end] {
        assert_eq!(store.strong_count(cell), 0);
        assert_eq!(store.head(cell), None);
    }
    assert_eq!(store.to_vec(list), Vec::<i32>::new());
}

#[test]
fn release_of_a_released_list_reports_over_release() {
    let mut store = ListStore::new();
    let list = build(&mut store, &[1]);
    assert_eq!(store.release(list), Ok(()));
    assert_eq!(store.release(list), Err(Fault::OverRelease));
    assert_eq!(store.release(StrongHandle { slot: 40 }), Err(Fault::OverRelease));
}

#[test]
fn an_extra_handle_keeps_a_list_alive() {
    let mut store = ListStore::new();
    let list = build(&mut store, &[8, 9]);
    let again = store.clone_strong(list);
    assert_eq!(again, list);
    assert_eq!(store.strong_count(list), 2);
    assert_eq!(store.release(list), Ok(()));
    assert_eq!(store.to_vec(again), vec![8, 9]);
    assert_eq!(store.release(again), Ok(()));
    assert_eq!(store.to_vec(again), Vec::<i32>::new());
}
