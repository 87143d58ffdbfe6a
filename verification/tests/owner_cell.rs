use smart_pointers::fault::Fault;
use smart_pointers::owner_cell::{OwnerArena, StrongHandle, WeakHandle};

#[test]
fn wrap_starts_with_one_strong_and_no_weak() {
    let mut arena: OwnerArena<i32> = OwnerArena::new();
    assert_eq!(arena.len(), 0);
    let h = arena.wrap(5);
    assert_eq!(arena.len(), 1);
    assert_eq!(arena.strong_count(h), 1);
    assert_eq!(arena.weak_count(h), 0);
    assert_eq!(arena.get(h), Some(&5));
}

#[test]
fn handles_are_stable_indices() {
    let mut arena: OwnerArena<i32> = OwnerArena::new();
    let a = arena.wrap(1);
    let b = arena.wrap(2);
    assert_eq!(a, StrongHandle { slot: 0 });
    assert_eq!(b, StrongHandle { slot: 1 });
    assert_eq!(arena.release_strong(a), Ok(Some(1)));
    let c = arena.wrap(3);
    assert_eq!(c, StrongHandle { slot: 2 });
    assert_eq!(arena.get(a), None);
    assert_eq!(arena.get(b), Some(&2));
    assert_eq!(arena.get(c), Some(&3));
}

#[test]
fn strong_count_is_one_plus_clones_minus_releases() {
    let mut arena: OwnerArena<i32> = OwnerArena::new();
    let h = arena.wrap(9);
    let mut clones = 0usize;
    let mut releases = 0usize;
    // clone, clone, release, clone, release, release
    for step in [true, true, false, true, false, false] {
        if step {
            let h2 = arena.clone_strong(h);
            assert_eq!(h2, h);
            clones += 1;
        } else {
            assert_eq!(arena.release_strong(h), Ok(None));
            releases += 1;
        }
        assert_eq!(arena.strong_count(h), 1 + clones - releases);
    }
    assert_eq!(arena.strong_count(h), 1);
}

#[test]
fn release_below_zero_reports_over_release() {
    let mut arena: OwnerArena<i32> = OwnerArena::new();
    let h = arena.wrap(9);
    assert_eq!(arena.release_strong(h), Ok(Some(9)));
    assert_eq!(arena.strong_count(h), 0);
    assert_eq!(arena.release_strong(h), Err(Fault::OverRelease));
    assert_eq!(arena.release_strong(h), Err(Fault::OverRelease));
    assert_eq!(arena.strong_count(h), 0);
}

#[test]
fn release_of_unknown_handle_reports_over_release() {
    let mut arena: OwnerArena<i32> = OwnerArena::new();
    let stray = StrongHandle { slot: 7 };
    assert_eq!(arena.strong_count(stray), 0);
    assert_eq!(arena.weak_count(stray), 0);
    assert_eq!(arena.get(stray), None);
    assert_eq!(arena.release_strong(stray), Err(Fault::OverRelease));
    assert_eq!(arena.release_weak(WeakHandle { slot: Some(7) }), Err(Fault::OverRelease));
    assert_eq!(arena.upgrade(WeakHandle { slot: Some(7) }), None);
    assert_eq!(arena.len(), 0);
}

#[test]
fn hook_fires_once_on_the_final_release() {
    let mut arena: OwnerArena<&'static str> = OwnerArena::new();
    let h = arena.wrap_with_hook("my stuff", 11);
    let n = 4;
    for _ in 0..n {
        arena.clone_strong(h);
    }
    assert_eq!(arena.strong_count(h), n + 1);
    for _ in 0..n {
        assert_eq!(arena.release_strong(h), Ok(None));
        assert!(arena.fired().is_empty());
    }
    assert_eq!(arena.release_strong(h), Ok(Some("my stuff")));
    assert_eq!(arena.fired(), &vec![11u64]);
    assert_eq!(arena.release_strong(h), Err(Fault::OverRelease));
    assert_eq!(arena.fired(), &vec![11u64]);
}

#[test]
fn hooks_fire_in_order_of_release() {
    let mut arena: OwnerArena<&'static str> = OwnerArena::new();
    let c = arena.wrap_with_hook("my stuff", 1);
    let d = arena.wrap_with_hook("other stuff", 2);
    let plain = arena.wrap("no hook");
    assert_eq!(arena.release_strong(plain), Ok(Some("no hook")));
    assert!(arena.fired().is_empty());
    assert_eq!(arena.release_strong(c), Ok(Some("my stuff")));
    assert_eq!(arena.release_strong(d), Ok(Some("other stuff")));
    assert_eq!(arena.fired(), &vec![1u64, 2u64]);
}

#[test]
fn weak_release_does_not_fire_the_hook() {
    let mut arena: OwnerArena<i32> = OwnerArena::new();
    let h = arena.wrap_with_hook(3, 99);
    let w = arena.clone_weak(h);
    assert_eq!(arena.weak_count(h), 1);
    assert_eq!(arena.release_weak(w), Ok(()));
    assert_eq!(arena.weak_count(h), 0);
    assert!(arena.fired().is_empty());
    assert_eq!(arena.strong_count(h), 1);
    assert_eq!(arena.get(h), Some(&3));
    assert_eq!(arena.release_weak(w), Err(Fault::OverRelease));
    assert_eq!(arena.weak_count(h), 0);
}

#[test]
fn upgrade_succeeds_while_live_and_counts() {
    let mut arena: OwnerArena<i32> = OwnerArena::new();
    let h = arena.wrap(3);
    let w = arena.clone_weak(h);
    assert_eq!(w, WeakHandle { slot: Some(0) });
    assert_eq!(arena.upgrade(w), Some(h));
    assert_eq!(arena.strong_count(h), 2);
    assert_eq!(arena.weak_count(h), 1);
}

#[test]
fn upgrade_after_full_release_is_absent() {
    let mut arena: OwnerArena<i32> = OwnerArena::new();
    let h = arena.wrap(3);
    let w = arena.clone_weak(h);
    arena.clone_strong(h);
    assert_eq!(arena.release_strong(h), Ok(None));
    assert_eq!(arena.upgrade(w), Some(h));
    assert_eq!(arena.release_strong(h), Ok(None));
    assert_eq!(arena.release_strong(h), Ok(Some(3)));
    assert_eq!(arena.upgrade(w), None);
    assert_eq!(arena.strong_count(h), 0);
    assert_eq!(arena.weak_count(h), 1);
    assert_eq!(arena.get(h), None);
    assert_eq!(arena.release_weak(w), Ok(()));
    assert_eq!(arena.weak_count(h), 0);
}

#[test]
fn empty_weak_handle_never_upgrades() {
    let mut arena: OwnerArena<i32> = OwnerArena::new();
    let h = arena.wrap(3);
    let w = WeakHandle::empty();
    assert!(w.is_empty());
    assert_eq!(arena.upgrade(w), None);
    assert_eq!(arena.clone_weak_handle(w), w);
    assert_eq!(arena.release_weak(w), Ok(()));
    assert_eq!(arena.strong_count(h), 1);
    assert_eq!(arena.weak_count(h), 0);
}

#[test]
fn weak_handle_can_be_cloned() {
    let mut arena: OwnerArena<i32> = OwnerArena::new();
    let h = arena.wrap(3);
    let w = arena.clone_weak(h);
    assert!(!w.is_empty());
    let w2 = arena.clone_weak_handle(w);
    assert_eq!(w2, w);
    assert_eq!(arena.weak_count(h), 2);
    assert_eq!(arena.strong_count(h), 1);
}

#[test]
fn replace_swaps_the_payload_of_a_live_cell() {
    let mut arena: OwnerArena<i32> = OwnerArena::new();
    let h = arena.wrap(5);
    arena.clone_strong(h);
    assert_eq!(arena.replace(h, 15), Ok(5));
    assert_eq!(arena.get(h), Some(&15));
    assert_eq!(arena.strong_count(h), 2);
    assert_eq!(arena.release_strong(h), Ok(None));
    assert_eq!(arena.release_strong(h), Ok(Some(15)));
    assert_eq!(arena.replace(h, 20), Err(20));
    assert_eq!(arena.get(h), None);
    assert_eq!(arena.replace(StrongHandle { slot: 3 }, 1), Err(1));
}

#[test]
fn cell_is_reclaimed_when_both_counts_reach_zero() {
    let mut arena: OwnerArena<i32> = OwnerArena::new();
    let h = arena.wrap(3);
    let w = arena.clone_weak(h);
    assert!(!arena.is_reclaimed(h));
    assert_eq!(arena.release_strong(h), Ok(Some(3)));
    assert!(!arena.is_reclaimed(h));
    assert_eq!(arena.release_weak(w), Ok(()));
    assert!(arena.is_reclaimed(h));
    assert!(!arena.is_reclaimed(StrongHandle { slot: 5 }));
}
