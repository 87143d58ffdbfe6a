//! What holds of every graph of nodes: a parent owns its children, a child
//! never owns its parent.

use vstd::prelude::*;
use crate::node_graph::{
    attach_child, child_links, drain, free_node, graph_wf, lemma_attach_keeps_wf,
    lemma_free_node_counts, lemma_release_counts, lemma_release_keeps_wf,
    lemma_release_weak_keeps_wf, parent_link, stacked, GraphModel,
};

verus! {

/// `after` differs from `before` only by what was given up: no cell was
/// added, no count grew, a payload that is still there is the one that was
/// there, and the log of fired hooks only grew at its end.
pub open spec fn only_takes(before: GraphModel, after: GraphModel) -> bool {
    &&& after.cells.len() == before.cells.len()
    &&& before.fired.is_prefix_of(after.fired)
    &&& forall|j: int|
        0 <= j < before.cells.len() ==> {
            &&& (#[trigger] after.cells[j]).strong <= before.cells[j].strong
            &&& after.cells[j].weak <= before.cells[j].weak
            &&& after.cells[j].value is Some ==> after.cells[j].value == before.cells[j].value
        }
}

proof fn lemma_only_takes_chain(a: GraphModel, b: GraphModel, c: GraphModel)
    requires
        only_takes(a, b),
        only_takes(b, c),
    ensures
        only_takes(a, c),
{
    assert(a.fired =~= c.fired.subrange(0, a.fired.len() as int)) by {
        assert(a.fired =~= b.fired.subrange(0, a.fired.len() as int));
        assert(b.fired =~= c.fired.subrange(0, b.fired.len() as int));
    }
    assert forall|j: int| 0 <= j < a.cells.len() implies {
        &&& (#[trigger] c.cells[j]).strong <= a.cells[j].strong
        &&& c.cells[j].weak <= a.cells[j].weak
        &&& c.cells[j].value is Some ==> c.cells[j].value == a.cells[j].value
    } by {
        assert(b.cells[j].strong <= a.cells[j].strong);
        assert(c.cells[j].strong <= b.cells[j].strong);
    }
}

proof fn lemma_release_only_takes(m: GraphModel, slot: int)
    requires
        graph_wf(m),
    ensures
        only_takes(m, m.release_strong(slot)),
{
    let after = m.release_strong(slot);
    assert(m.fired =~= after.fired.subrange(0, m.fired.len() as int));
}

proof fn lemma_free_node_only_takes(m: GraphModel, slot: int)
    requires
        graph_wf(m),
    ensures
        graph_wf(free_node(m, slot)),
        only_takes(m, free_node(m, slot)),
{
    let freed = m.release_strong(slot);
    lemma_release_keeps_wf(m, slot);
    lemma_release_only_takes(m, slot);
    lemma_release_weak_keeps_wf(freed, parent_link(m, slot));
    let after = free_node(m, slot);
    assert(only_takes(freed, after)) by {
        assert(freed.fired =~= after.fired.subrange(0, freed.fired.len() as int));
    }
    lemma_only_takes_chain(m, freed, after);
}

/// Giving up handles only takes: whatever is pending, the graph stays well
/// formed, no count grows, no node comes back to life, and a node that is
/// still live holds what it held.
pub proof fn lemma_drain_only_takes(m: GraphModel, pending: Seq<int>)
    requires
        graph_wf(m),
    ensures
        graph_wf(drain(m, pending)),
        only_takes(m, drain(m, pending)),
    decreases m.live_count(), pending.len(),
{
    if pending.len() == 0 {
        assert(m.fired =~= m.fired.subrange(0, m.fired.len() as int));
    } else {
        let slot = pending.last();
        let rest = pending.drop_last();
        if m.strong(slot) == 1 {
            let next = free_node(m, slot);
            lemma_free_node_counts(m, slot);
            lemma_free_node_only_takes(m, slot);
            lemma_drain_only_takes(next, stacked(rest, child_links(m, slot)));
            lemma_only_takes_chain(m, next, drain(m, pending));
        } else {
            let next = m.release_strong(slot);
            lemma_release_counts(m, slot);
            lemma_release_keeps_wf(m, slot);
            lemma_release_only_takes(m, slot);
            lemma_drain_only_takes(next, rest);
            lemma_only_takes_chain(m, next, drain(m, pending));
        }
    }
}

proof fn lemma_stacked_contains(pending: Seq<int>, children: Seq<int>, slot: int)
    requires
        pending.contains(slot) || children.contains(slot),
    ensures
        stacked(pending, children).contains(slot),
    decreases children.len(),
{
    if children.len() > 0 {
        let grown = pending.push(children.last());
        if pending.contains(slot) {
            let k = choose|k: int| 0 <= k < pending.len() && pending[k] == slot;
            assert(grown[k] == slot);
        } else {
            let k = choose|k: int| 0 <= k < children.len() && children[k] == slot;
            if k == children.len() - 1 {
                assert(grown[pending.len() as int] == slot);
            } else {
                assert(children.drop_last()[k] == slot);
            }
        }
        lemma_stacked_contains(grown, children.drop_last(), slot);
    }
}

/// A node whose only strong handle is pending does not outlive the giving
/// up: it is freed when its handle comes up, and if a hook was registered for
/// it, the hook has fired.
pub proof fn lemma_drain_frees_sole_handle(m: GraphModel, pending: Seq<int>, node: int)
    requires
        graph_wf(m),
        pending.contains(node),
        m.strong(node) <= 1,
    ensures
        !drain(m, pending).live(node),
        m.hook(node) matches Some(hook) ==> drain(m, pending).fired.contains(hook),
    decreases m.live_count(), pending.len(),
{
    let slot = pending.last();
    let rest = pending.drop_last();
    let after = drain(m, pending);
    if m.has(node) {
        assert(m.cells[node].wf());
    }
    if m.strong(slot) == 1 {
        let next = free_node(m, slot);
        let stack = stacked(rest, child_links(m, slot));
        lemma_free_node_counts(m, slot);
        lemma_free_node_only_takes(m, slot);
        lemma_drain_only_takes(next, stack);
        if slot == node {
            assert(!next.live(node));
            if m.hook(node) is Some {
                let hook = m.hook(node)->0;
                let freed = m.release_strong(slot);
                assert(freed.fired.last() == hook);
                assert(next.fired == freed.fired);
                assert(after.fired[next.fired.len() - 1] == next.fired.subrange(
                    0,
                    next.fired.len() as int,
                )[next.fired.len() - 1]);
            }
        } else {
            let k = choose|k: int| 0 <= k < pending.len() && pending[k] == node;
            assert(rest[k] == node);
            lemma_stacked_contains(rest, child_links(m, slot), node);
            assert(next.hook(node) == m.hook(node));
            lemma_drain_frees_sole_handle(next, stack, node);
        }
    } else {
        let next = m.release_strong(slot);
        lemma_release_counts(m, slot);
        lemma_release_keeps_wf(m, slot);
        lemma_drain_only_takes(next, rest);
        if slot == node {
            assert(!m.live(node));
        } else {
            let k = choose|k: int| 0 <= k < pending.len() && pending[k] == node;
            assert(rest[k] == node);
            assert(next.hook(node) == m.hook(node));
            lemma_drain_frees_sole_handle(next, rest, node);
        }
    }
}

/// The edge from a child to its parent is weak: attaching a child gives the
/// child one more strong handle and the parent none, unless a node is
/// attached to itself. Afterwards the child observes the parent and the
/// parent lists the child last.
pub proof fn lemma_attach_counts(m: GraphModel, parent: int, child: int)
    requires
        graph_wf(m),
        m.live(parent),
        m.live(child),
    ensures
        graph_wf(attach_child(m, parent, child)),
        attach_child(m, parent, child).strong(child) == m.strong(child) + 1,
        parent != child ==> attach_child(m, parent, child).strong(parent) == m.strong(parent),
        parent_link(attach_child(m, parent, child), child) == Some(parent),
        child_links(attach_child(m, parent, child), parent) == child_links(m, parent).push(child),
        attach_child(m, parent, child).fired == m.fired,
{
    lemma_attach_keeps_wf(m, parent, child);
    assert(m.cells[parent].wf());
    assert(m.cells[child].wf());
}

/// A parent owns its children and nothing owns the parent through them:
/// when the last strong handle on `parent` is given up, the parent is freed
/// although its children observe it, and every child that the parent alone
/// held is freed with it, its hook fired.
pub proof fn lemma_release_frees_owned_children(m: GraphModel, parent: int, child: int)
    requires
        graph_wf(m),
        m.strong(parent) == 1,
        child_links(m, parent).contains(child),
        m.strong(child) == 1,
    ensures
        !drain(m, seq![parent]).live(parent),
        !drain(m, seq![parent]).live(child),
        m.hook(child) matches Some(hook) ==> drain(m, seq![parent]).fired.contains(hook),
{
    let pending = seq![parent];
    assert(pending[0] == parent);
    lemma_drain_frees_sole_handle(m, pending, parent);
    if child != parent {
        let next = free_node(m, parent);
        let stack = stacked(pending.drop_last(), child_links(m, parent));
        lemma_free_node_counts(m, parent);
        lemma_free_node_only_takes(m, parent);
        lemma_stacked_contains(pending.drop_last(), child_links(m, parent), child);
        assert(m.cells[parent].wf());
        assert(next.strong(child) == 1);
        assert(next.hook(child) == m.hook(child));
        lemma_drain_frees_sole_handle(next, stack, child);
    }
}

/// A child that outlives its parent finds the parent gone: once the last
/// strong handle on `parent` is given up, the parent is not live, and a node
/// that is still live observes what it observed before, so the upgrade of its
/// handle on the parent fails.
pub proof fn lemma_parent_gone_after_release(m: GraphModel, parent: int, child: int)
    requires
        graph_wf(m),
        m.strong(parent) == 1,
        parent_link(m, child) == Some(parent),
        drain(m, seq![parent]).live(child),
    ensures
        !drain(m, seq![parent]).live(parent),
        parent_link(drain(m, seq![parent]), child) == Some(parent),
{
    let pending = seq![parent];
    assert(pending[0] == parent);
    lemma_drain_frees_sole_handle(m, pending, parent);
    lemma_drain_only_takes(m, pending);
    let after = drain(m, pending);
    assert(after.cells[child].wf());
}

/// A line of descent is being given up: every node of `path` that is still
/// live has one strong handle only and lists the next node of the path among
/// its children, and the topmost of the live nodes whose predecessor is gone
/// has its handle pending.
spec fn descent_pending(m: GraphModel, pending: Seq<int>, path: Seq<int>) -> bool {
    forall|i: int|
        0 <= i < path.len() && m.live(#[trigger] path[i]) ==> {
            &&& m.strong(path[i]) == 1
            &&& i + 1 < path.len() ==> child_links(m, path[i]).contains(path[i + 1])
            &&& i == 0 || !m.live(path[i - 1]) ==> pending.contains(path[i])
        }
}

proof fn lemma_descent_gone_when_nothing_pending(m: GraphModel, path: Seq<int>, upto: int)
    requires
        descent_pending(m, Seq::empty(), path),
        0 <= upto < path.len(),
    ensures
        !m.live(path[upto]),
    decreases upto,
{
    if upto > 0 {
        lemma_descent_gone_when_nothing_pending(m, path, upto - 1);
    }
    if m.live(path[upto]) {
        assert(Seq::<int>::empty().contains(path[upto]));
    }
}

proof fn lemma_rest_contains(pending: Seq<int>, slot: int)
    requires
        pending.contains(slot),
        pending.last() != slot,
    ensures
        pending.drop_last().contains(slot),
{
    let k = choose|k: int| 0 <= k < pending.len() && pending[k] == slot;
    assert(pending.drop_last()[k] == slot);
}

proof fn lemma_drain_frees_descent(m: GraphModel, pending: Seq<int>, path: Seq<int>)
    requires
        graph_wf(m),
        descent_pending(m, pending, path),
    ensures
        forall|i: int| 0 <= i < path.len() ==> !drain(m, pending).live(#[trigger] path[i]),
    decreases m.live_count(), pending.len(),
{
    if pending.len() == 0 {
        assert(pending =~= Seq::<int>::empty());
        assert forall|i: int| 0 <= i < path.len() implies !m.live(#[trigger] path[i]) by {
            lemma_descent_gone_when_nothing_pending(m, path, i);
        }
    } else {
        let slot = pending.last();
        let rest = pending.drop_last();
        if m.strong(slot) == 1 {
            let next = free_node(m, slot);
            let stack = stacked(rest, child_links(m, slot));
            lemma_free_node_counts(m, slot);
            lemma_free_node_only_takes(m, slot);
            assert(m.cells[slot].wf());
            assert forall|i: int| 0 <= i < path.len() && next.live(#[trigger] path[i]) implies {
                &&& next.strong(path[i]) == 1
                &&& i + 1 < path.len() ==> child_links(next, path[i]).contains(path[i + 1])
                &&& i == 0 || !next.live(path[i - 1]) ==> stack.contains(path[i])
            } by {
                let n = path[i];
                assert(m.live(n));
                assert(n != slot);
                assert(next.cells[n].value == m.cells[n].value);
                if i == 0 || !m.live(path[i - 1]) {
                    lemma_rest_contains(pending, n);
                    lemma_stacked_contains(rest, child_links(m, slot), n);
                } else if !next.live(path[i - 1]) {
                    assert(path[i - 1] == slot);
                    lemma_stacked_contains(rest, child_links(m, slot), n);
                }
            }
            lemma_drain_frees_descent(next, stack, path);
        } else {
            let next = m.release_strong(slot);
            lemma_release_counts(m, slot);
            lemma_release_keeps_wf(m, slot);
            assert forall|i: int| 0 <= i < path.len() && next.live(#[trigger] path[i]) implies {
                &&& next.strong(path[i]) == 1
                &&& i + 1 < path.len() ==> child_links(next, path[i]).contains(path[i + 1])
                &&& i == 0 || !next.live(path[i - 1]) ==> rest.contains(path[i])
            } by {
                let n = path[i];
                assert(m.live(n));
                assert(n != slot);
                if i == 0 || !next.live(path[i - 1]) {
                    if i > 0 {
                        assert(!m.live(path[i - 1]));
                    }
                    lemma_rest_contains(pending, n);
                }
            }
            lemma_drain_frees_descent(next, rest, path);
        }
    }
}

/// Giving up a parent frees all that it alone keeps alive, however deep:
/// along a line of descent in which each node is a child of the one before
/// and has one strong handle only, giving up the handle of the first node
/// frees every node of the line.
pub proof fn lemma_release_frees_owned_descendants(m: GraphModel, path: Seq<int>)
    requires
        graph_wf(m),
        path.len() >= 1,
        forall|i: int| 0 <= i < path.len() ==> m.strong(#[trigger] path[i]) == 1,
        forall|i: int|
            0 <= i < path.len() - 1 ==> child_links(m, #[trigger] path[i]).contains(path[i + 1]),
    ensures
        forall|i: int| 0 <= i < path.len() ==> !drain(m, seq![path[0]]).live(#[trigger] path[i]),
{
    let pending = seq![path[0]];
    assert(pending[0] == path[0]);
    assert forall|i: int| 0 <= i < path.len() && m.live(#[trigger] path[i]) implies {
        &&& m.strong(path[i]) == 1
        &&& i + 1 < path.len() ==> child_links(m, path[i]).contains(path[i + 1])
        &&& i == 0 || !m.live(path[i - 1]) ==> pending.contains(path[i])
    } by {
        if i > 0 {
            assert(m.strong(path[i - 1]) == 1);
        }
    }
    lemma_drain_frees_descent(m, pending, path);
}

} // verus!
