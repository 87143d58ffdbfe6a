//! A graph of nodes in which a parent owns its children and a child only
//! observes its parent.
//!
//! Every node is an owner cell. The handles that a node holds on its children
//! are strong; the handle that it holds on its parent is weak. A parent and
//! its child therefore know each other without keeping each other alive.

use vstd::prelude::*;
use crate::access_cell::{AccessCell, BorrowModel, BorrowState, ExclusiveGuard, SharedGuard};
use crate::fault::Fault;
use crate::owner_cell::{
    lemma_live_among_update, lemma_release_strong_counts, ArenaModel, CellModel, OwnerArena,
    StrongHandle, WeakHandle,
};

verus! {

/// What a node holds, as mathematics.
pub struct NodeBody {
    pub value: i32,
    /// The cell that the weak parent handle observes, if it observes one.
    pub parent: Option<int>,
    /// The borrow state of the access cell around the parent handle.
    pub parent_state: BorrowModel,
    /// The cells that the strong child handles name, in order of attachment.
    pub children: Seq<int>,
    /// The borrow state of the access cell around the child handles.
    pub children_state: BorrowModel,
}

impl NodeBody {
    /// A node as `new_node` makes it: no parent, no children, nothing
    /// borrowed.
    pub open spec fn fresh(value: i32) -> NodeBody {
        NodeBody {
            value,
            parent: None,
            parent_state: BorrowModel::Unborrowed,
            children: Seq::empty(),
            children_state: BorrowModel::Unborrowed,
        }
    }

    /// Both borrow states are well formed.
    pub open spec fn wf(self) -> bool {
        self.parent_state.wf() && self.children_state.wf()
    }
}

/// A graph of nodes, as mathematics: an arena whose cells hold node bodies.
pub type GraphModel = ArenaModel<NodeBody>;

/// The arena is well formed and so is every node in it.
pub open spec fn graph_wf(m: GraphModel) -> bool {
    &&& m.wf()
    &&& forall|i: int|
        0 <= i < m.cells.len() ==> (#[trigger] m.cells[i].value matches Some(body) ==> body.wf())
}

/// The borrow state of one access cell of the node at `node`.
pub open spec fn link_state(m: GraphModel, node: int, link: Link) -> BorrowModel {
    match m.value(node) {
        Some(body) => match link {
            Link::Parent => body.parent_state,
            Link::Children => body.children_state,
        },
        None => BorrowModel::Unborrowed,
    }
}

/// The graph with `state` as the borrow state of one access cell of the live
/// node at `node`.
pub open spec fn with_link_state(
    m: GraphModel,
    node: int,
    link: Link,
    state: BorrowModel,
) -> GraphModel {
    match m.value(node) {
        Some(body) => m.with_value(
            node,
            match link {
                Link::Parent => NodeBody { parent_state: state, ..body },
                Link::Children => NodeBody { children_state: state, ..body },
            },
        ),
        None => m,
    }
}

/// The graph with a handle on `child` added to the children of the live node
/// at `parent`.
pub open spec fn with_child(m: GraphModel, parent: int, child: int) -> GraphModel {
    match m.value(parent) {
        Some(body) => m.with_value(
            parent,
            NodeBody { children: body.children.push(child), ..body },
        ),
        None => m,
    }
}

/// The graph with `parent` as what the parent handle of the live node at
/// `child` observes.
pub open spec fn with_parent(m: GraphModel, child: int, parent: Option<int>) -> GraphModel {
    match m.value(child) {
        Some(body) => m.with_value(child, NodeBody { parent, ..body }),
        None => m,
    }
}

/// What the parent handle of the node at `node` observes.
pub open spec fn parent_link(m: GraphModel, node: int) -> Option<int> {
    match m.value(node) {
        Some(body) => body.parent,
        None => None,
    }
}

/// What the child handles of the node at `node` name.
pub open spec fn child_links(m: GraphModel, node: int) -> Seq<int> {
    match m.value(node) {
        Some(body) => body.children,
        None => Seq::empty(),
    }
}

/// Whether `child` can be attached to `parent`: the children of the one and
/// the parent handle of the other are both unborrowed.
pub open spec fn can_attach(m: GraphModel, parent: int, child: int) -> bool {
    &&& link_state(m, parent, Link::Children) is Unborrowed
    &&& link_state(m, child, Link::Parent) is Unborrowed
}

/// The graph after `child` is attached to `parent`: the parent holds one
/// more strong handle on the child, the child holds a weak handle on the
/// parent, and the weak handle that the child held before is given up.
pub open spec fn attach_child(m: GraphModel, parent: int, child: int) -> GraphModel {
    let counted = with_child(m.clone_strong(child), parent, child).clone_weak(parent);
    let linked = with_parent(counted, child, Some(parent));
    match parent_link(counted, child) {
        Some(former) => linked.release_weak(former),
        None => linked,
    }
}

/// The handles `pending` with the handles `children` stacked on top of them,
/// the first child topmost.
pub open spec fn stacked(pending: Seq<int>, children: Seq<int>) -> Seq<int>
    decreases children.len(),
{
    if children.len() == 0 {
        pending
    } else {
        stacked(pending.push(children.last()), children.drop_last())
    }
}

/// The graph after the node at `slot` loses its last strong handle: the node
/// is emptied, its hook fires, and the weak handle that it held on its parent
/// is given up. The handles that it held on its children are still to be
/// given up.
pub open spec fn free_node(m: GraphModel, slot: int) -> GraphModel {
    match parent_link(m, slot) {
        Some(parent) => m.release_strong(slot).release_weak(parent),
        None => m.release_strong(slot),
    }
}

/// The graph after the strong handles `pending` are given up, the last of
/// them first. A node that loses its last strong handle is freed, and the
/// handles that it held on its children are given up next, the first child
/// first, each with all that hangs on it. A handle on a node that is no
/// longer live has nothing left to give up.
pub open spec fn drain(m: GraphModel, pending: Seq<int>) -> GraphModel
    decreases m.live_count(), pending.len(),
{
    if pending.len() == 0 {
        m
    } else {
        let slot = pending.last();
        let rest = pending.drop_last();
        if m.strong(slot) == 1 {
            proof {
                lemma_free_node_counts(m, slot);
            }
            drain(free_node(m, slot), stacked(rest, child_links(m, slot)))
        } else {
            proof {
                lemma_release_counts(m, slot);
            }
            drain(m.release_strong(slot), rest)
        }
    }
}

/// Giving up a strong handle that is not the last one leaves as many nodes
/// live as before.
pub proof fn lemma_release_counts(m: GraphModel, slot: int)
    requires
        m.strong(slot) != 1,
    ensures
        m.release_strong(slot).live_count() == m.live_count(),
{
    lemma_release_strong_counts(m, slot);
}

/// Freeing a node leaves one node fewer live.
pub proof fn lemma_free_node_counts(m: GraphModel, slot: int)
    requires
        m.strong(slot) == 1,
    ensures
        free_node(m, slot).live_count() + 1 == m.live_count(),
{
    let freed = m.release_strong(slot);
    lemma_live_among_update(m.cells, slot, m.cells[slot].emptied());
    match parent_link(m, slot) {
        Some(parent) => {
            if freed.weak(parent) > 0 {
                let c = freed.cells[parent];
                lemma_live_among_update(
                    freed.cells,
                    parent,
                    CellModel { weak: (c.weak - 1) as nat, ..c },
                );
            }
        },
        None => {},
    }
}

/// Which of the two access cells of a node is meant.
#[derive(Clone, Copy, Debug, PartialEq, Eq, Structural)]
pub enum Link {
    /// The cell around the weak handle on the parent.
    Parent,
    /// The cell around the strong handles on the children.
    Children,
}

/// A node: a value, a weak handle on the parent and strong handles on the
/// children, each kind of handle behind an access cell.
struct Node {
    value: i32,
    parent: AccessCell<WeakHandle>,
    children: AccessCell<Vec<StrongHandle>>,
}

impl Node {
    /// What this node holds.
    spec fn body(&self) -> NodeBody {
        NodeBody {
            value: self.value,
            parent: self.parent@.value@,
            parent_state: self.parent@.state,
            children: slots_of(self.children@.value@),
            children_state: self.children@.state,
        }
    }

    fn new(value: i32) -> (node: Node)
        ensures
            node.body() == NodeBody::fresh(value),
    {
        let node = Node {
            value,
            parent: AccessCell::new(WeakHandle::empty()),
            children: AccessCell::new(Vec::new()),
        };
        assert(node.body().children =~= Seq::<int>::empty());
        node
    }

    fn into_parts(self) -> (parts: (WeakHandle, Vec<StrongHandle>))
        ensures
            parts.0@ == self.body().parent,
            slots_of(parts.1@) == self.body().children,
    {
        let Node { value: _, parent, children } = self;
        (parent.into_inner(), children.into_inner())
    }
}

/// The cells that the handles `handles` name.
pub open spec fn slots_of(handles: Seq<StrongHandle>) -> Seq<int> {
    handles.map_values(|h: StrongHandle| h@)
}

/// The cell of the graph model that stands for a cell of the arena.
spec fn lift_cell(c: CellModel<Node>) -> CellModel<NodeBody> {
    CellModel {
        value: match c.value {
            Some(node) => Some(node.body()),
            None => None,
        },
        strong: c.strong,
        weak: c.weak,
        hook: c.hook,
    }
}

/// The graph model that stands for an arena of nodes.
spec fn lift(a: ArenaModel<Node>) -> GraphModel {
    ArenaModel { cells: Seq::new(a.cells.len(), |i: int| lift_cell(a.cells[i])), fired: a.fired }
}

/// The nodes of a graph.
pub struct NodeGraph {
    cells: OwnerArena<Node>,
}

impl View for NodeGraph {
    type V = GraphModel;

    closed spec fn view(&self) -> GraphModel {
        lift(self.cells@)
    }
}

impl NodeGraph {
    /// The arena and every node in it are well formed.
    pub open spec fn wf(&self) -> bool {
        graph_wf(self@)
    }

    proof fn lemma_arena_wf(&self)
        requires
            self.wf(),
        ensures
            self.cells.wf(),
    {
        assert forall|i: int| 0 <= i < self.cells@.cells.len() implies (
        #[trigger] self.cells@.cells[i]).wf() by {
            assert(self@.cells[i].wf());
        }
    }

    /// A graph without nodes.
    pub fn new() -> (graph: NodeGraph)
        ensures
            graph.wf(),
            graph@ == GraphModel::empty(),
    {
        let graph = NodeGraph { cells: OwnerArena::new() };
        assert(graph@.cells =~= Seq::<CellModel<NodeBody>>::empty());
        graph
    }

    /// A new node that holds `value`, with no parent and no children, and
    /// its first strong handle.
    pub fn new_node(&mut self, value: i32) -> (node: StrongHandle)
        requires
            old(self).wf(),
        ensures
            final(self).wf(),
            node@ == old(self)@.cells.len(),
            final(self)@ == old(self)@.wrap(NodeBody::fresh(value), None),
    {
        proof {
            self.lemma_arena_wf();
        }
        let node = self.cells.wrap(Node::new(value));
        proof {
            assert(self@.cells =~= old(self)@.wrap(NodeBody::fresh(value), None).cells);
        }
        node
    }

    /// A new node like that of `new_node`, with `hook` registered as its
    /// release hook.
    pub fn new_node_with_hook(&mut self, value: i32, hook: u64) -> (node: StrongHandle)
        requires
            old(self).wf(),
        ensures
            final(self).wf(),
            node@ == old(self)@.cells.len(),
            final(self)@ == old(self)@.wrap(NodeBody::fresh(value), Some(hook)),
    {
        proof {
            self.lemma_arena_wf();
        }
        let node = self.cells.wrap_with_hook(Node::new(value), hook);
        proof {
            assert(self@.cells =~= old(self)@.wrap(NodeBody::fresh(value), Some(hook)).cells);
        }
        node
    }

    /// The number of strong handles on `node`.
    pub fn strong_count(&self, node: StrongHandle) -> (n: usize)
        ensures
            n == self@.strong(node@),
    {
        self.cells.strong_count(node)
    }

    /// The number of weak handles on `node`.
    pub fn weak_count(&self, node: StrongHandle) -> (n: usize)
        ensures
            n == self@.weak(node@),
    {
        self.cells.weak_count(node)
    }

    /// The value that `node` holds, while the node is live.
    pub fn value(&self, node: StrongHandle) -> (r: Option<i32>)
        requires
            self.wf(),
        ensures
            r == (match self@.value(node@) {
                Some(body) => Some(body.value),
                None => None,
            }),
    {
        proof {
            self.lemma_arena_wf();
        }
        match self.cells.get(node) {
            Some(n) => Some(n.value),
            None => None,
        }
    }

    /// The hooks that have fired so far, oldest first.
    pub fn fired(&self) -> (log: &Vec<u64>)
        ensures
            log@ == self@.fired,
    {
        self.cells.fired()
    }

    fn swap_node(&mut self, node: StrongHandle, incoming: Node) -> (former: Node)
        requires
            old(self).cells.wf(),
            old(self).cells@.live(node@),
        ensures
            final(self).cells.wf(),
            final(self).cells@ == old(self).cells@.with_value(node@, incoming),
            Some(former) == old(self).cells@.value(node@),
    {
        match self.cells.replace(node, incoming) {
            Ok(former) => former,
            Err(given) => given,
        }
    }

    /// Attaches `child` to `parent`.
    ///
    /// The parent gets one more strong handle on the child, behind an
    /// exclusive borrow of its children; the child gets a weak handle on the
    /// parent, behind an exclusive borrow of its parent handle, and gives up
    /// the weak handle that it held before. Where one of the two access cells
    /// is borrowed already, the call reports `BorrowConflict` and nothing
    /// changes.
    pub fn attach_child(&mut self, parent: StrongHandle, child: StrongHandle) -> (r: Result<
        (),
        Fault,
    >)
        requires
            old(self).wf(),
            old(self)@.live(parent@),
            old(self)@.live(child@),
            old(self)@.strong(child@) < usize::MAX,
            old(self)@.weak(parent@) < usize::MAX,
        ensures
            final(self).wf(),
            r is Ok <==> can_attach(old(self)@, parent@, child@),
            r is Err ==> r == Err::<(), Fault>(Fault::BorrowConflict) && final(self)@ == old(
                self,
            )@,
            r is Ok ==> final(self)@ == attach_child(old(self)@, parent@, child@),
    {
        proof {
            self.lemma_arena_wf();
            assert(self@.cells[parent@].wf());
            assert(self@.cells[child@].wf());
        }
        let children_free = match self.cells.get(parent) {
            Some(node) => match node.children.state() {
                BorrowState::Unborrowed => true,
                _ => false,
            },
            None => false,
        };
        let parent_free = match self.cells.get(child) {
            Some(node) => match node.parent.state() {
                BorrowState::Unborrowed => true,
                _ => false,
            },
            None => false,
        };
        if !children_free || !parent_free {
            return Err(Fault::BorrowConflict);
        }
        let ghost m0 = self@;
        let held = self.cells.clone_strong(child);
        let ghost m1 = self@;
        proof {
            lemma_lift_clone_strong(old(self).cells@, child@);
        }

        let ghost a1 = self.cells@;
        let spare = Node::new(0);
        let mut p_node = self.swap_node(parent, spare);
        let ghost p_body = p_node.body();
        let ghost p_kids = p_node.children@.value@;
        match p_node.children.borrow_exclusive() {
            Ok(guard) => {
                match p_node.children.write(&guard, Vec::new()) {
                    Ok(kids) => {
                        let mut kids = kids;
                        kids.push(held);
                        let _ = p_node.children.write(&guard, kids);
                    },
                    Err(_) => {},
                }
                let _ = p_node.children.release_exclusive(guard);
            },
            Err(_) => {},
        }
        proof {
            assert(p_node.children@.value@ == p_kids.push(held));
            assert(p_node.body().children =~= p_body.children.push(child@));
            lemma_lift_with_value(a1, parent@, spare);
            lemma_lift_with_value(a1.with_value(parent@, spare), parent@, p_node);
        }
        let _ = self.swap_node(parent, p_node);
        let ghost m2 = self@;
        proof {
            assert(m1.value(parent@) == Some(p_body));
            assert(p_body.children_state is Unborrowed);
            assert(p_node.body() == NodeBody { children: p_body.children.push(child@), ..p_body });
            assert(m2.cells =~= with_child(m1, parent@, child@).cells);
        }

        let ghost a2 = self.cells@;
        let w = self.cells.clone_weak(parent);
        let ghost m3 = self@;
        proof {
            lemma_lift_clone_weak(a2, parent@);
        }
        assert(m3.cells[child@].wf());

        let ghost a3 = self.cells@;
        let spare = Node::new(0);
        let mut c_node = self.swap_node(child, spare);
        let ghost c_body = c_node.body();
        let former = match c_node.parent.borrow_exclusive() {
            Ok(guard) => {
                let former = match c_node.parent.write(&guard, w) {
                    Ok(former) => former,
                    Err(given) => given,
                };
                let _ = c_node.parent.release_exclusive(guard);
                former
            },
            Err(_) => WeakHandle::empty(),
        };
        proof {
            assert(c_node.body() =~= NodeBody { parent: Some(parent@), ..c_body });
            lemma_lift_with_value(a3, child@, spare);
            lemma_lift_with_value(a3.with_value(child@, spare), child@, c_node);
        }
        let _ = self.swap_node(child, c_node);
        let ghost m4 = self@;
        proof {
            assert(m3.value(child@) == Some(c_body));
            assert(c_body.parent_state is Unborrowed);
            assert(m4.cells =~= with_parent(m3, child@, Some(parent@)).cells);
        }
        assert(former@ == parent_link(m3, child@));

        let ghost a4 = self.cells@;
        let _ = self.cells.release_weak(former);
        proof {
            if former@ is Some {
                lemma_lift_release_weak(a4, former@->0);
            }
            assert(self@ == attach_child(m0, parent@, child@));
            lemma_attach_keeps_wf(m0, parent@, child@);
        }
        Ok(())
    }

    /// Makes one more strong handle on the live node `node`.
    pub fn clone_strong(&mut self, node: StrongHandle) -> (h: StrongHandle)
        requires
            old(self).wf(),
            old(self)@.live(node@),
            old(self)@.strong(node@) < usize::MAX,
        ensures
            final(self).wf(),
            h == node,
            final(self)@ == old(self)@.clone_strong(node@),
    {
        proof {
            self.lemma_arena_wf();
            lemma_lift_clone_strong(self.cells@, node@);
        }
        let h = self.cells.clone_strong(node);
        proof {
            lemma_count_change_keeps_wf(old(self)@, self@);
        }
        h
    }

    /// The weak handle that `node` holds on its parent, as it is stored. The
    /// handle is the node's own: no count changes. A node that is not live
    /// holds none.
    ///
    /// The handle is read under a shared borrow that is given back at once.
    /// Where the parent handle of `node` is borrowed exclusively, the call
    /// reports `BorrowConflict`.
    pub fn stored_parent(&self, node: StrongHandle) -> (r: Result<WeakHandle, Fault>)
        requires
            self.wf(),
        ensures
            r is Err <==> link_state(self@, node@, Link::Parent) is ExclusiveBorrowed,
            r is Err ==> r == Err::<WeakHandle, Fault>(Fault::BorrowConflict),
            r matches Ok(stored) ==> stored@ == parent_link(self@, node@),
    {
        proof {
            self.lemma_arena_wf();
        }
        match self.cells.get(node) {
            Some(n) => match n.parent.peek() {
                Some(w) => Ok(*w),
                None => Err(Fault::BorrowConflict),
            },
            None => Ok(WeakHandle::empty()),
        }
    }

    /// The parent of `node`, as a new strong handle, if the node has a parent
    /// and the parent is still live.
    ///
    /// The stored weak handle is read under a shared borrow that is given
    /// back at once, and upgraded. Where the parent handle of `node` is
    /// borrowed exclusively, the call reports `BorrowConflict` and nothing
    /// changes.
    pub fn parent_of(&mut self, node: StrongHandle) -> (r: Result<Option<StrongHandle>, Fault>)
        requires
            old(self).wf(),
            parent_link(old(self)@, node@) matches Some(parent) ==> old(self)@.strong(parent)
                < usize::MAX,
        ensures
            final(self).wf(),
            r is Err <==> link_state(old(self)@, node@, Link::Parent) is ExclusiveBorrowed,
            r is Err ==> r == Err::<Option<StrongHandle>, Fault>(Fault::BorrowConflict)
                && final(self)@ == old(self)@,
            r matches Ok(found) ==> {
                &&& found is Some <==> (parent_link(old(self)@, node@) matches Some(parent)
                    && old(self)@.live(parent))
                &&& found matches Some(h) ==> Some(h@) == parent_link(old(self)@, node@)
                &&& final(self)@ == (match parent_link(old(self)@, node@) {
                    Some(parent) => old(self)@.clone_strong(parent),
                    None => old(self)@,
                })
            },
    {
        proof {
            self.lemma_arena_wf();
        }
        let stored = match self.stored_parent(node) {
            Ok(stored) => stored,
            Err(fault) => {
                return Err(fault);
            },
        };
        proof {
            if stored@ is Some {
                lemma_lift_clone_strong(self.cells@, stored@->0);
            }
        }
        let found = self.cells.upgrade(stored);
        proof {
            lemma_count_change_keeps_wf(old(self)@, self@);
        }
        Ok(found)
    }

    /// The handles that `node` holds on its children, in order of
    /// attachment. They are the node's own: no count changes.
    ///
    /// The handles are read under a shared borrow that is given back at
    /// once. Where the children of `node` are borrowed exclusively, the call
    /// reports `BorrowConflict`. A node that is not live has no children to
    /// show.
    pub fn children(&self, node: StrongHandle) -> (r: Result<Vec<StrongHandle>, Fault>)
        requires
            self.wf(),
        ensures
            r is Err <==> link_state(self@, node@, Link::Children) is ExclusiveBorrowed,
            r is Err ==> r == Err::<Vec<StrongHandle>, Fault>(Fault::BorrowConflict),
            r matches Ok(handles) ==> slots_of(handles@) == child_links(self@, node@),
    {
        proof {
            self.lemma_arena_wf();
        }
        let mut out: Vec<StrongHandle> = Vec::new();
        match self.cells.get(node) {
            Some(n) => match n.children.peek() {
                Some(kids) => {
                    let mut i: usize = 0;
                    while i < kids.len()
                        invariant
                            i <= kids.len(),
                            out@ == kids@.take(i as int),
                        decreases kids.len() - i,
                    {
                        out.push(kids[i]);
                        i += 1;
                        assert(out@ =~= kids@.take(i as int));
                    }
                    assert(out@ =~= kids@);
                    Ok(out)
                },
                None => Err(Fault::BorrowConflict),
            },
            None => {
                assert(slots_of(out@) =~= Seq::<int>::empty());
                Ok(out)
            },
        }
    }

    /// Requests a shared borrow of one access cell of the live node `node`.
    /// A refused request reports `BorrowConflict` and changes nothing.
    pub fn borrow_shared(&mut self, node: StrongHandle, link: Link) -> (r: Result<
        SharedGuard,
        Fault,
    >)
        requires
            old(self).wf(),
            old(self)@.live(node@),
            link_state(old(self)@, node@, link) matches BorrowModel::SharedBorrowed(n) ==> n
                < usize::MAX,
        ensures
            final(self).wf(),
            match link_state(old(self)@, node@, link).borrow_shared() {
                Ok(next) => r is Ok && final(self)@ == with_link_state(
                    old(self)@,
                    node@,
                    link,
                    next,
                ),
                Err(fault) => r == Err::<SharedGuard, Fault>(fault) && final(self)@ == old(
                    self,
                )@,
            },
    {
        proof {
            self.lemma_arena_wf();
            assert(self@.cells[node@].wf());
            assert(self@.cells[node@].value is Some);
        }
        let ghost a0 = self.cells@;
        let spare = Node::new(0);
        let mut n = self.swap_node(node, spare);
        let r = match link {
            Link::Parent => n.parent.borrow_shared(),
            Link::Children => n.children.borrow_shared(),
        };
        proof {
            lemma_lift_with_value(a0, node@, spare);
            lemma_lift_with_value(a0.with_value(node@, spare), node@, n);
        }
        let _ = self.swap_node(node, n);
        proof {
            let expected = match link_state(old(self)@, node@, link).borrow_shared() {
                Ok(next) => with_link_state(old(self)@, node@, link, next),
                Err(_) => old(self)@,
            };
            assert(self@.cells =~= expected.cells);
            lemma_link_change_keeps_wf(old(self)@, self@, node@);
        }
        r
    }

    /// Requests the exclusive borrow of one access cell of the live node
    /// `node`. A refused request reports `BorrowConflict` and changes
    /// nothing.
    pub fn borrow_exclusive(&mut self, node: StrongHandle, link: Link) -> (r: Result<
        ExclusiveGuard,
        Fault,
    >)
        requires
            old(self).wf(),
            old(self)@.live(node@),
        ensures
            final(self).wf(),
            match link_state(old(self)@, node@, link).borrow_exclusive() {
                Ok(next) => r is Ok && final(self)@ == with_link_state(
                    old(self)@,
                    node@,
                    link,
                    next,
                ),
                Err(fault) => r == Err::<ExclusiveGuard, Fault>(fault) && final(self)@ == old(
                    self,
                )@,
            },
    {
        proof {
            self.lemma_arena_wf();
            assert(self@.cells[node@].wf());
            assert(self@.cells[node@].value is Some);
        }
        let ghost a0 = self.cells@;
        let spare = Node::new(0);
        let mut n = self.swap_node(node, spare);
        let r = match link {
            Link::Parent => n.parent.borrow_exclusive(),
            Link::Children => n.children.borrow_exclusive(),
        };
        proof {
            lemma_lift_with_value(a0, node@, spare);
            lemma_lift_with_value(a0.with_value(node@, spare), node@, n);
        }
        let _ = self.swap_node(node, n);
        proof {
            let expected = match link_state(old(self)@, node@, link).borrow_exclusive() {
                Ok(next) => with_link_state(old(self)@, node@, link, next),
                Err(_) => old(self)@,
            };
            assert(self@.cells =~= expected.cells);
            lemma_link_change_keeps_wf(old(self)@, self@, node@);
        }
        r
    }

    /// Gives a shared guard on one access cell of the live node `node` back.
    /// A cell without readers reports `OverRelease` and stays as it is.
    pub fn release_shared(
        &mut self,
        node: StrongHandle,
        link: Link,
        guard: SharedGuard,
    ) -> (r: Result<(), Fault>)
        requires
            old(self).wf(),
            old(self)@.live(node@),
        ensures
            final(self).wf(),
            match link_state(old(self)@, node@, link).release_shared() {
                Ok(next) => r is Ok && final(self)@ == with_link_state(
                    old(self)@,
                    node@,
                    link,
                    next,
                ),
                Err(fault) => r == Err::<(), Fault>(fault) && final(self)@ == old(self)@,
            },
    {
        proof {
            self.lemma_arena_wf();
            assert(self@.cells[node@].wf());
            assert(self@.cells[node@].value is Some);
        }
        let ghost a0 = self.cells@;
        let spare = Node::new(0);
        let mut n = self.swap_node(node, spare);
        let r = match link {
            Link::Parent => n.parent.release_shared(guard),
            Link::Children => n.children.release_shared(guard),
        };
        proof {
            lemma_lift_with_value(a0, node@, spare);
            lemma_lift_with_value(a0.with_value(node@, spare), node@, n);
        }
        let _ = self.swap_node(node, n);
        proof {
            let expected = match link_state(old(self)@, node@, link).release_shared() {
                Ok(next) => with_link_state(old(self)@, node@, link, next),
                Err(_) => old(self)@,
            };
            assert(self@.cells =~= expected.cells);
            lemma_link_change_keeps_wf(old(self)@, self@, node@);
        }
        r
    }

    /// Gives the exclusive guard on one access cell of the live node `node`
    /// back. A cell without a writer reports `OverRelease` and stays as it
    /// is.
    pub fn release_exclusive(
        &mut self,
        node: StrongHandle,
        link: Link,
        guard: ExclusiveGuard,
    ) -> (r: Result<(), Fault>)
        requires
            old(self).wf(),
            old(self)@.live(node@),
        ensures
            final(self).wf(),
            match link_state(old(self)@, node@, link).release_exclusive() {
                Ok(next) => r is Ok && final(self)@ == with_link_state(
                    old(self)@,
                    node@,
                    link,
                    next,
                ),
                Err(fault) => r == Err::<(), Fault>(fault) && final(self)@ == old(self)@,
            },
    {
        proof {
            self.lemma_arena_wf();
            assert(self@.cells[node@].wf());
            assert(self@.cells[node@].value is Some);
        }
        let ghost a0 = self.cells@;
        let spare = Node::new(0);
        let mut n = self.swap_node(node, spare);
        let r = match link {
            Link::Parent => n.parent.release_exclusive(guard),
            Link::Children => n.children.release_exclusive(guard),
        };
        proof {
            lemma_lift_with_value(a0, node@, spare);
            lemma_lift_with_value(a0.with_value(node@, spare), node@, n);
        }
        let _ = self.swap_node(node, n);
        proof {
            let expected = match link_state(old(self)@, node@, link).release_exclusive() {
                Ok(next) => with_link_state(old(self)@, node@, link, next),
                Err(_) => old(self)@,
            };
            assert(self@.cells =~= expected.cells);
            lemma_link_change_keeps_wf(old(self)@, self@, node@);
        }
        r
    }

    /// Gives up one strong handle on `node`.
    ///
    /// Where it was the last one, the node is freed: its hook fires, the weak
    /// handle that it held on its parent is given up, and so is each strong
    /// handle that it held on a child, the first child first, which may free
    /// the child in the same way. A node with no strong handle left reports
    /// `OverRelease`, and nothing changes.
    pub fn release(&mut self, node: StrongHandle) -> (r: Result<(), Fault>)
        requires
            old(self).wf(),
        ensures
            final(self).wf(),
            r is Err <==> !old(self)@.live(node@),
            r is Err ==> r == Err::<(), Fault>(Fault::OverRelease) && final(self)@ == old(self)@,
            r is Ok ==> final(self)@ == drain(old(self)@, seq![node@]),
    {
        if self.cells.strong_count(node) == 0 {
            return Err(Fault::OverRelease);
        }
        let mut pending: Vec<StrongHandle> = Vec::new();
        pending.push(node);
        assert(slots_of(pending@) =~= seq![node@]);
        while pending.len() > 0
            invariant
                self.wf(),
                old(self)@.live(node@),
                drain(self@, slots_of(pending@)) == drain(old(self)@, seq![node@]),
            decreases self@.live_count(), pending.len(),
        {
            let ghost m = self@;
            let ghost a = self.cells@;
            let ghost before = slots_of(pending@);
            let slot = match pending.pop() {
                Some(slot) => slot,
                None => node,
            };
            let ghost rest = slots_of(pending@);
            proof {
                self.lemma_arena_wf();
                assert(rest =~= before.drop_last());
                assert(slot@ == before.last());
                lemma_lift_release_strong(a, slot@);
                lemma_release_keeps_wf(m, slot@);
            }
            match self.cells.release_strong(slot) {
                Ok(Some(freed)) => {
                    let ghost a1 = self.cells@;
                    let (stored, kids) = freed.into_parts();
                    proof {
                        assert(m.cells[slot@].value == Some(freed.body()));
                        if stored@ is Some {
                            lemma_lift_release_weak(a1, stored@->0);
                        }
                        lemma_release_weak_keeps_wf(lift(a1), stored@);
                    }
                    let _ = self.cells.release_weak(stored);
                    proof {
                        assert(self@ == free_node(m, slot@));
                        lemma_free_node_counts(m, slot@);
                        assert(slots_of(kids@).take(kids@.len() as int) =~= slots_of(kids@));
                    }
                    let mut i: usize = kids.len();
                    while i > 0
                        invariant
                            i <= kids.len(),
                            stacked(slots_of(pending@), slots_of(kids@).take(i as int)) == stacked(
                                rest,
                                slots_of(kids@),
                            ),
                        decreases i,
                    {
                        let ghost upper = slots_of(kids@).take(i as int);
                        i -= 1;
                        let ghost stack = slots_of(pending@);
                        pending.push(kids[i]);
                        proof {
                            assert(slots_of(pending@) =~= stack.push(upper.last()));
                            assert(slots_of(kids@).take(i as int) =~= upper.drop_last());
                        }
                    }
                    proof {
                        assert(slots_of(kids@).take(0).len() == 0);
                    }
                },
                _ => {
                    proof {
                        lemma_release_counts(m, slot@);
                    }
                },
            }
        }
        assert(slots_of(pending@).len() == 0);
        Ok(())
    }
}

/// Attaching a child keeps the graph well formed.
pub proof fn lemma_attach_keeps_wf(m: GraphModel, parent: int, child: int)
    requires
        graph_wf(m),
        m.live(parent),
        m.live(child),
    ensures
        graph_wf(attach_child(m, parent, child)),
{
    let after = attach_child(m, parent, child);
    assert forall|i: int| 0 <= i < after.cells.len() implies (#[trigger] after.cells[i]).wf() && (
    after.cells[i].value matches Some(body) ==> body.wf()) by {
        assert(m.cells[i].wf());
        assert(m.cells[i].value matches Some(body) ==> body.wf());
    }
}

proof fn lemma_lift_clone_strong(a: ArenaModel<Node>, slot: int)
    ensures
        lift(a.clone_strong(slot)) == lift(a).clone_strong(slot),
{
    assert(lift(a.clone_strong(slot)).cells =~= lift(a).clone_strong(slot).cells);
}

proof fn lemma_lift_clone_weak(a: ArenaModel<Node>, slot: int)
    ensures
        lift(a.clone_weak(slot)) == lift(a).clone_weak(slot),
{
    assert(lift(a.clone_weak(slot)).cells =~= lift(a).clone_weak(slot).cells);
}

proof fn lemma_lift_release_strong(a: ArenaModel<Node>, slot: int)
    ensures
        lift(a.release_strong(slot)) == lift(a).release_strong(slot),
{
    assert(lift(a.release_strong(slot)).cells =~= lift(a).release_strong(slot).cells);
}

proof fn lemma_lift_release_weak(a: ArenaModel<Node>, slot: int)
    ensures
        lift(a.release_weak(slot)) == lift(a).release_weak(slot),
{
    assert(lift(a.release_weak(slot)).cells =~= lift(a).release_weak(slot).cells);
}

proof fn lemma_lift_with_value(a: ArenaModel<Node>, slot: int, node: Node)
    ensures
        lift(a.with_value(slot, node)) == lift(a).with_value(slot, node.body()),
{
    assert(lift(a.with_value(slot, node)).cells =~= lift(a).with_value(slot, node.body()).cells);
}

proof fn lemma_count_change_keeps_wf(before: GraphModel, after: GraphModel)
    requires
        graph_wf(before),
        after.cells.len() == before.cells.len(),
        forall|i: int|
            0 <= i < before.cells.len() ==> {
                &&& (#[trigger] after.cells[i]).wf()
                &&& after.cells[i].value is Some ==> after.cells[i].value == before.cells[i].value
            },
    ensures
        graph_wf(after),
{
    assert forall|i: int| 0 <= i < after.cells.len() implies (
    #[trigger] after.cells[i].value matches Some(body) ==> body.wf()) by {
        assert(after.cells[i].wf());
        assert(before.cells[i].value matches Some(body) ==> body.wf());
    }
}

proof fn lemma_link_change_keeps_wf(before: GraphModel, after: GraphModel, node: int)
    requires
        graph_wf(before),
        after.cells.len() == before.cells.len(),
        forall|i: int|
            0 <= i < before.cells.len() && i != node ==> #[trigger] after.cells[i]
                == before.cells[i],
        before.has(node) ==> after.cells[node].wf() && (after.cells[node].value matches Some(
            body,
        ) ==> body.wf()),
    ensures
        graph_wf(after),
{
    assert forall|i: int| 0 <= i < after.cells.len() implies (#[trigger] after.cells[i]).wf() && (
    after.cells[i].value matches Some(body) ==> body.wf()) by {
        assert(before.cells[i].wf());
        assert(before.cells[i].value matches Some(body) ==> body.wf());
    }
}

/// Giving up a strong handle keeps the graph well formed.
pub proof fn lemma_release_keeps_wf(m: GraphModel, slot: int)
    requires
        graph_wf(m),
    ensures
        graph_wf(m.release_strong(slot)),
{
    let after = m.release_strong(slot);
    assert forall|i: int| 0 <= i < after.cells.len() implies (#[trigger] after.cells[i]).wf() && (
    after.cells[i].value matches Some(body) ==> body.wf()) by {
        assert(m.cells[i].wf());
        assert(m.cells[i].value matches Some(body) ==> body.wf());
    }
}

/// Giving up a weak handle keeps the graph well formed.
pub proof fn lemma_release_weak_keeps_wf(m: GraphModel, stored: Option<int>)
    requires
        graph_wf(m),
    ensures
        graph_wf(
            match stored {
                Some(slot) => m.release_weak(slot),
                None => m,
            },
        ),
{
    let after = match stored {
        Some(slot) => m.release_weak(slot),
        None => m,
    };
    assert forall|i: int| 0 <= i < after.cells.len() implies (#[trigger] after.cells[i]).wf() && (
    after.cells[i].value matches Some(body) ==> body.wf()) by {
        assert(m.cells[i].wf());
        assert(m.cells[i].value matches Some(body) ==> body.wf());
    }
}

} // verus!
