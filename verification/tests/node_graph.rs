use smart_pointers::access_cell::{BorrowState, ExclusiveGuard};
use smart_pointers::fault::Fault;
use smart_pointers::node_graph::{Link, NodeGraph};
use smart_pointers::owner_cell::{StrongHandle, WeakHandle};

#[test]
fn new_node_has_no_parent_and_no_children() {
    let mut graph = NodeGraph::new();
    let leaf = graph.new_node(3);
    assert_eq!(graph.value(leaf), Some(3));
    assert_eq!(graph.strong_count(leaf), 1);
    assert_eq!(graph.weak_count(leaf), 0);
    assert_eq!(graph.parent_of(leaf), Ok(None));
    assert_eq!(graph.children(leaf), Ok(vec![]));
}

#[test]
fn leaf_and_branch_count_as_the_edges_say() {
    let mut graph = NodeGraph::new();
    let leaf = graph.new_node(3);
    assert_eq!((graph.strong_count(leaf), graph.weak_count(leaf)), (1, 0));
    let branch = graph.new_node(5);
    assert_eq!(graph.attach_child(branch, leaf), Ok(()));
    assert_eq!((graph.strong_count(branch), graph.weak_count(branch)), (1, 1));
    assert_eq!((graph.strong_count(leaf), graph.weak_count(leaf)), (2, 0));
    assert_eq!(graph.children(branch), Ok(vec![leaf]));

    let parent = graph.parent_of(leaf).unwrap().unwrap();
    assert_eq!(parent, branch);
    assert_eq!(graph.value(parent), Some(5));
    assert_eq!(graph.strong_count(branch), 2);
    assert_eq!(graph.release(parent), Ok(()));

    // The branch goes out of scope.
    assert_eq!(graph.release(branch), Ok(()));
    assert_eq!(graph.parent_of(leaf), Ok(None));
    assert_eq!((graph.strong_count(leaf), graph.weak_count(leaf)), (1, 0));
    assert_eq!(graph.value(leaf), Some(3));
    assert_eq!(graph.value(branch), None);
}

#[test]
fn parent_release_frees_children_held_by_it_alone() {
    let mut graph = NodeGraph::new();
    let parent = graph.new_node_with_hook(1, 100);
    let kept = graph.new_node_with_hook(2, 200);
    let owned = graph.new_node_with_hook(3, 300);
    let grandchild = graph.new_node_with_hook(4, 400);
    assert_eq!(graph.attach_child(parent, kept), Ok(()));
    assert_eq!(graph.attach_child(parent, owned), Ok(()));
    assert_eq!(graph.attach_child(owned, grandchild), Ok(()));
    // Only `kept` keeps a handle from outside.
    assert_eq!(graph.release(owned), Ok(()));
    assert_eq!(graph.release(grandchild), Ok(()));
    assert!(graph.fired().is_empty());

    assert_eq!(graph.release(parent), Ok(()));
    assert_eq!(graph.strong_count(parent), 0);
    assert_eq!(graph.strong_count(owned), 0);
    assert_eq!(graph.strong_count(grandchild), 0);
    assert_eq!(graph.strong_count(kept), 1);
    assert_eq!(graph.fired(), &vec![100u64, 300, 400]);
    assert_eq!(graph.parent_of(kept), Ok(None));
    assert_eq!(graph.weak_count(parent), 1);
    assert_eq!(graph.weak_count(owned), 0);

    assert_eq!(graph.release(kept), Ok(()));
    assert_eq!(graph.fired(), &vec![100u64, 300, 400, 200]);
    assert_eq!(graph.weak_count(parent), 0);
}

#[test]
fn children_are_freed_first_child_first() {
    let mut graph = NodeGraph::new();
    let root = graph.new_node_with_hook(0, 10);
    let a = graph.new_node_with_hook(1, 11);
    let a1 = graph.new_node_with_hook(2, 12);
    let b = graph.new_node_with_hook(3, 13);
    assert_eq!(graph.attach_child(root, a), Ok(()));
    assert_eq!(graph.attach_child(root, b), Ok(()));
    assert_eq!(graph.attach_child(a, a1), Ok(()));
    for node in [a, a1, b] {
        assert_eq!(graph.release(node), Ok(()));
    }
    assert_eq!(graph.release(root), Ok(()));
    assert_eq!(graph.fired(), &vec![10u64, 11, 12, 13]);
}

#[test]
fn child_released_first_stays_alive_through_its_parent() {
    let mut graph = NodeGraph::new();
    let parent = graph.new_node(1);
    let child = graph.new_node_with_hook(2, 7);
    assert_eq!(graph.attach_child(parent, child), Ok(()));
    assert_eq!(graph.release(child), Ok(()));
    assert_eq!(graph.strong_count(child), 1);
    assert_eq!(graph.value(child), Some(2));
    assert!(graph.fired().is_empty());
    assert_eq!(graph.release(parent), Ok(()));
    assert_eq!(graph.strong_count(child), 0);
    assert_eq!(graph.fired(), &vec![7u64]);
}

#[test]
fn attach_reports_conflict_when_children_are_borrowed() {
    let mut graph = NodeGraph::new();
    let parent = graph.new_node(1);
    let child = graph.new_node(2);
    let guard = graph.borrow_shared(parent, Link::Children).unwrap();
    assert_eq!(graph.attach_child(parent, child), Err(Fault::BorrowConflict));
    assert_eq!(graph.strong_count(child), 1);
    assert_eq!(graph.weak_count(parent), 0);
    assert_eq!(graph.children(parent), Ok(vec![]));
    assert_eq!(graph.release_shared(parent, Link::Children, guard), Ok(()));
    assert_eq!(graph.attach_child(parent, child), Ok(()));
    assert_eq!(graph.strong_count(child), 2);
}

#[test]
fn attach_reports_conflict_when_parent_link_is_borrowed() {
    let mut graph = NodeGraph::new();
    let parent = graph.new_node(1);
    let child = graph.new_node(2);
    let guard: ExclusiveGuard = graph.borrow_exclusive(child, Link::Parent).unwrap();
    assert_eq!(graph.attach_child(parent, child), Err(Fault::BorrowConflict));
    assert_eq!(graph.parent_of(child), Err(Fault::BorrowConflict));
    assert_eq!(graph.strong_count(child), 1);
    assert_eq!(graph.children(parent), Ok(vec![]));
    assert_eq!(graph.release_exclusive(child, Link::Parent, guard), Ok(()));
    assert_eq!(graph.attach_child(parent, child), Ok(()));
    assert_eq!(graph.parent_of(child), Ok(Some(parent)));
}

#[test]
fn borrows_on_a_link_follow_the_access_cell_rules() {
    let mut graph = NodeGraph::new();
    let node = graph.new_node(1);
    let writer = graph.borrow_exclusive(node, Link::Children).unwrap();
    assert_eq!(
        graph.borrow_shared(node, Link::Children).unwrap_err(),
        Fault::BorrowConflict
    );
    assert_eq!(
        graph.borrow_exclusive(node, Link::Children).unwrap_err(),
        Fault::BorrowConflict
    );
    assert_eq!(graph.children(node), Err(Fault::BorrowConflict));
    // The other cell of the node is not touched.
    let reader = graph.borrow_shared(node, Link::Parent).unwrap();
    assert_eq!(graph.parent_of(node), Ok(None));
    assert_eq!(graph.release_shared(node, Link::Parent, reader), Ok(()));
    assert_eq!(graph.release_exclusive(node, Link::Children, writer), Ok(()));
    assert_eq!(graph.children(node), Ok(vec![]));
    let spare = graph.borrow_shared(node, Link::Children).unwrap();
    assert_eq!(graph.release_shared(node, Link::Children, spare), Ok(()));
    let _ = BorrowState::Unborrowed;
}

#[test]
fn giving_back_a_guard_twice_reports_over_release() {
    let mut graph = NodeGraph::new();
    let node = graph.new_node(1);
    let other = graph.new_node(2);
    let guard = graph.borrow_shared(node, Link::Parent).unwrap();
    assert_eq!(
        graph.release_shared(other, Link::Parent, guard),
        Err(Fault::OverRelease)
    );
    let writer = graph.borrow_exclusive(other, Link::Parent).unwrap();
    assert_eq!(
        graph.release_exclusive(node, Link::Parent, writer),
        Err(Fault::OverRelease)
    );
}

#[test]
fn reattaching_moves_the_weak_handle_only() {
    let mut graph = NodeGraph::new();
    let first = graph.new_node(1);
    let second = graph.new_node(2);
    let child = graph.new_node(3);
    assert_eq!(graph.attach_child(first, child), Ok(()));
    assert_eq!(graph.attach_child(second, child), Ok(()));
    assert_eq!(graph.weak_count(first), 0);
    assert_eq!(graph.weak_count(second), 1);
    assert_eq!(graph.strong_count(child), 3);
    assert_eq!(graph.parent_of(child), Ok(Some(second)));
    assert_eq!(graph.children(first), Ok(vec![child]));
    assert_eq!(graph.children(second), Ok(vec![child]));
}

#[test]
fn extra_strong_handle_keeps_a_node_alive() {
    let mut graph = NodeGraph::new();
    let node = graph.new_node_with_hook(1, 5);
    let again = graph.clone_strong(node);
    assert_eq!(again, node);
    assert_eq!(graph.strong_count(node), 2);
    assert_eq!(graph.release(node), Ok(()));
    assert_eq!(graph.value(node), Some(1));
    assert!(graph.fired().is_empty());
    assert_eq!(graph.release(node), Ok(()));
    assert_eq!(graph.value(node), None);
    assert_eq!(graph.fired(), &vec![5u64]);
    assert_eq!(graph.release(node), Err(Fault::OverRelease));
    assert_eq!(graph.fired(), &vec![5u64]);
    assert_eq!(graph.release(StrongHandle { slot: 9 }), Err(Fault::OverRelease));
}

#[test]
fn strong_back_edge_would_leak_but_weak_one_does_not() {
    let mut graph = NodeGraph::new();
    let a = graph.new_node_with_hook(1, 1);
    let b = graph.new_node_with_hook(2, 2);
    // a owns b, b owns a: a cycle of strong edges.
    assert_eq!(graph.attach_child(a, b), Ok(()));
    assert_eq!(graph.attach_child(b, a), Ok(()));
    assert_eq!(graph.release(a), Ok(()));
    assert_eq!(graph.release(b), Ok(()));
    assert_eq!(graph.strong_count(a), 1);
    assert_eq!(graph.strong_count(b), 1);
    assert!(graph.fired().is_empty());
}

#[test]
fn stored_parent_is_the_weak_handle_as_kept() {
    let mut graph = NodeGraph::new();
    let parent = graph.new_node(1);
    let child = graph.new_node(2);
    assert_eq!(graph.stored_parent(child), Ok(WeakHandle::empty()));
    assert_eq!(graph.attach_child(parent, child), Ok(()));
    assert_eq!(graph.stored_parent(child), Ok(WeakHandle { slot: Some(parent.slot) }));
    assert_eq!(graph.weak_count(parent), 1);
    assert_eq!(graph.release(parent), Ok(()));
    // The handle outlives what it observed.
    assert_eq!(graph.stored_parent(child), Ok(WeakHandle { slot: Some(parent.slot) }));
    assert_eq!(graph.parent_of(child), Ok(None));
    let guard = graph.borrow_exclusive(child, Link::Parent).unwrap();
    assert_eq!(graph.stored_parent(child), Err(Fault::BorrowConflict));
    assert_eq!(graph.release_exclusive(child, Link::Parent, guard), Ok(()));
    assert_eq!(graph.stored_parent(StrongHandle { slot: 17 }), Ok(WeakHandle::empty()));
}
