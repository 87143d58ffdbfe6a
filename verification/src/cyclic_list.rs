//! Lists whose links are strong and can be redirected: the structure in
//! which reference counting leaks.
//!
//! A `Cons` cell holds a strong handle on the cell after it, behind an access
//! cell, so the link can be pointed elsewhere after the cell is made. Two
//! cells that are linked to each other keep each other alive: when every
//! handle from outside is given up, each still has the strong handle of the
//! other, and neither is ever freed. That is how counted ownership behaves;
//! the graph of nodes avoids it by making the back edge weak.

use vstd::prelude::*;
use crate::access_cell::AccessCell;
use crate::fault::Fault;
use crate::owner_cell::{
    lemma_release_strong_counts, ArenaModel, CellModel, OwnerArena, StrongHandle,
};

verus! {

/// What a chain cell holds, as mathematics.
pub enum ChainBody {
    /// An item and the cell that the link names.
    Cons(i32, int),
    Nil,
}

/// A chain of cells, as mathematics.
pub type ChainModel = ArenaModel<ChainBody>;

/// The cell that the link of the cell at `slot` names.
pub open spec fn link_of(m: ChainModel, slot: int) -> Option<int> {
    match m.value(slot) {
        Some(ChainBody::Cons(_, next)) => Some(next),
        _ => None,
    }
}

/// The chain after one strong handle on the cell at `slot` is given up.
/// A cell that loses its last handle is emptied and gives up the handle of
/// its link, which may empty the next cell in turn.
pub open spec fn release_link(m: ChainModel, slot: int) -> ChainModel
    decreases m.live_count(),
{
    if m.strong(slot) == 1 {
        match link_of(m, slot) {
            Some(next) => {
                proof {
                    lemma_release_strong_counts(m, slot);
                }
                release_link(m.release_strong(slot), next)
            },
            None => m.release_strong(slot),
        }
    } else {
        m.release_strong(slot)
    }
}

/// The chain after the link of the cell at `slot` is pointed at `next`: the
/// cell holds a new strong handle on `next` and gives up the one that it
/// held before. A cell without a link stays as it is.
pub open spec fn set_tail(m: ChainModel, slot: int, next: int) -> ChainModel {
    match m.value(slot) {
        Some(ChainBody::Cons(item, former)) => release_link(
            m.clone_strong(next).with_value(slot, ChainBody::Cons(item, next)),
            former,
        ),
        _ => m,
    }
}

/// A chain cell: an item and a redirectable strong link, or the end.
enum ChainNode {
    Cons(i32, AccessCell<StrongHandle>),
    Nil,
}

impl ChainNode {
    /// What this cell holds.
    spec fn body(&self) -> ChainBody {
        match *self {
            ChainNode::Cons(item, link) => ChainBody::Cons(item, link@.value@),
            ChainNode::Nil => ChainBody::Nil,
        }
    }

    /// The link of this cell is not borrowed.
    spec fn at_rest(&self) -> bool {
        match *self {
            ChainNode::Cons(_, link) => link@.state is Unborrowed,
            ChainNode::Nil => true,
        }
    }
}

/// The chain model that stands for an arena of chain cells.
spec fn lift(a: ArenaModel<ChainNode>) -> ChainModel {
    ArenaModel {
        cells: Seq::new(
            a.cells.len(),
            |i: int|
                CellModel {
                    value: match a.cells[i].value {
                        Some(node) => Some(node.body()),
                        None => None,
                    },
                    strong: a.cells[i].strong,
                    weak: a.cells[i].weak,
                    hook: a.cells[i].hook,
                },
        ),
        fired: a.fired,
    }
}

/// The cells of all chains.
pub struct ChainStore {
    cells: OwnerArena<ChainNode>,
}

impl View for ChainStore {
    type V = ChainModel;

    closed spec fn view(&self) -> ChainModel {
        lift(self.cells@)
    }
}

impl ChainStore {
    /// The cells are well formed and no link is borrowed.
    pub closed spec fn wf(&self) -> bool {
        &&& self.cells.wf()
        &&& forall|i: int|
            0 <= i < self.cells@.cells.len() ==> (
            #[trigger] self.cells@.cells[i].value matches Some(node) ==> node.at_rest())
    }

    /// The model of a well-formed store is well formed.
    pub proof fn lemma_model_wf(&self)
        requires
            self.wf(),
        ensures
            self@.wf(),
    {
        assert forall|i: int| 0 <= i < self@.cells.len() implies (#[trigger] self@.cells[i]).wf() by {
            assert(self.cells@.cells[i].wf());
        }
    }

    /// A store without cells.
    pub fn new() -> (store: ChainStore)
        ensures
            store.wf(),
            store@ == ChainModel::empty(),
    {
        let store = ChainStore { cells: OwnerArena::new() };
        assert(store@.cells =~= Seq::<CellModel<ChainBody>>::empty());
        store
    }

    /// A new end-of-chain cell.
    pub fn nil(&mut self) -> (node: StrongHandle)
        requires
            old(self).wf(),
        ensures
            final(self).wf(),
            node@ == old(self)@.cells.len(),
            final(self)@ == old(self)@.wrap(ChainBody::Nil, None),
    {
        let node = self.cells.wrap(ChainNode::Nil);
        proof {
            assert(self@.cells =~= old(self)@.wrap(ChainBody::Nil, None).cells);
        }
        node
    }

    /// A new cell that holds `value` and a strong handle of its own on the
    /// live cell `next`.
    pub fn cons(&mut self, value: i32, next: StrongHandle) -> (node: StrongHandle)
        requires
            old(self).wf(),
            old(self)@.live(next@),
            old(self)@.strong(next@) < usize::MAX,
        ensures
            final(self).wf(),
            node@ == old(self)@.cells.len(),
            final(self)@ == old(self)@.clone_strong(next@).wrap(
                ChainBody::Cons(value, next@),
                None,
            ),
    {
        let held = self.cells.clone_strong(next);
        let node = self.cells.wrap(ChainNode::Cons(value, AccessCell::new(held)));
        proof {
            assert(self@.cells =~= old(self)@.clone_strong(next@).wrap(
                ChainBody::Cons(value, next@),
                None,
            ).cells);
        }
        node
    }

    /// Makes one more strong handle on the live cell `node`.
    pub fn clone_strong(&mut self, node: StrongHandle) -> (h: StrongHandle)
        requires
            old(self).wf(),
            old(self)@.live(node@),
            old(self)@.strong(node@) < usize::MAX,
        ensures
            final(self).wf(),
            h == node,
            final(self)@ == old(self)@.clone_strong(node@),
    {
        proof {
            lemma_lift_clone_strong(self.cells@, node@);
        }
        self.cells.clone_strong(node)
    }

    /// The number of strong handles on `node`.
    pub fn strong_count(&self, node: StrongHandle) -> (n: usize)
        ensures
            n == self@.strong(node@),
    {
        self.cells.strong_count(node)
    }

    /// The item of `node`, if it is a live `Cons` cell.
    pub fn head(&self, node: StrongHandle) -> (r: Option<i32>)
        requires
            self.wf(),
        ensures
            r == (match self@.value(node@) {
                Some(ChainBody::Cons(item, _)) => Some(item),
                _ => None,
            }),
    {
        match self.cells.get(node) {
            Some(ChainNode::Cons(item, _)) => Some(*item),
            _ => None,
        }
    }

    /// The handle that `node` holds on the cell after it, if `node` is a live
    /// `Cons` cell. The handle is the cell's own: no count changes.
    pub fn tail(&self, node: StrongHandle) -> (r: Option<StrongHandle>)
        requires
            self.wf(),
        ensures
            match r {
                Some(next) => link_of(self@, node@) == Some(next@),
                None => link_of(self@, node@) is None,
            },
    {
        match self.cells.get(node) {
            Some(ChainNode::Cons(_, link)) => {
                proof {
                    assert(self.cells@.cells[node@].value is Some);
                }
                match link.peek() {
                    Some(next) => Some(*next),
                    None => None,
                }
            },
            _ => None,
        }
    }

    fn release_from(&mut self, start: StrongHandle)
        requires
            old(self).wf(),
        ensures
            final(self).wf(),
            final(self)@ == release_link(old(self)@, start@),
    {
        let mut cur = start;
        loop
            invariant
                self.wf(),
                release_link(self@, cur@) == release_link(old(self)@, start@),
            decreases self@.live_count(),
        {
            let ghost a = self.cells@;
            proof {
                lemma_lift_release_strong(a, cur@);
                lemma_release_strong_counts(lift(a), cur@);
            }
            match self.cells.release_strong(cur) {
                Ok(Some(ChainNode::Cons(_, link))) => {
                    proof {
                        assert(a.cells[cur@].value is Some);
                    }
                    cur = link.into_inner();
                },
                _ => {
                    return ;
                },
            }
        }
    }

    /// Gives up one strong handle on `node`.
    ///
    /// Where it was the last one, the cell is emptied and gives up the handle
    /// of its link, and so on along the chain for as long as cells lose their
    /// last handle. A cell with no strong handle left reports `OverRelease`,
    /// and nothing changes.
    pub fn release(&mut self, node: StrongHandle) -> (r: Result<(), Fault>)
        requires
            old(self).wf(),
        ensures
            final(self).wf(),
            r is Err <==> !old(self)@.live(node@),
            r is Err ==> r == Err::<(), Fault>(Fault::OverRelease) && final(self)@ == old(self)@,
            r is Ok ==> final(self)@ == release_link(old(self)@, node@),
    {
        if self.cells.strong_count(node) == 0 {
            return Err(Fault::OverRelease);
        }
        self.release_from(node);
        Ok(())
    }

    /// Points the link of `node` at the live cell `next`.
    ///
    /// The cell gets a strong handle of its own on `next`, behind an
    /// exclusive borrow of its link, and gives up the handle that it held
    /// before. The answer is whether `node` is a live `Cons` cell; any other
    /// cell has no link, and nothing changes.
    pub fn set_tail(&mut self, node: StrongHandle, next: StrongHandle) -> (changed: bool)
        requires
            old(self).wf(),
            old(self)@.live(next@),
            old(self)@.strong(next@) < usize::MAX,
        ensures
            final(self).wf(),
            changed == (link_of(old(self)@, node@) is Some),
            final(self)@ == set_tail(old(self)@, node@, next@),
    {
        let has_link = match self.cells.get(node) {
            Some(ChainNode::Cons(_, _)) => true,
            _ => false,
        };
        if !has_link {
            return false;
        }
        let ghost a0 = self.cells@;
        proof {
            assert(a0.cells[node@].wf());
            assert(a0.cells[node@].value is Some);
            lemma_lift_clone_strong(a0, next@);
        }
        let held = self.cells.clone_strong(next);
        let ghost a1 = self.cells@;
        match self.cells.replace(node, ChainNode::Nil) {
            Ok(ChainNode::Cons(item, link)) => {
                let mut link = link;
                let ghost a2 = self.cells@;
                let former = match link.borrow_exclusive() {
                    Ok(guard) => {
                        let former = match link.write(&guard, held) {
                            Ok(former) => former,
                            Err(given) => given,
                        };
                        let _ = link.release_exclusive(guard);
                        former
                    },
                    Err(_) => held,
                };
                let relinked = ChainNode::Cons(item, link);
                let _ = self.cells.replace(node, relinked);
                proof {
                    assert(self@.cells =~= lift(a0).clone_strong(next@).with_value(
                        node@,
                        ChainBody::Cons(item, next@),
                    ).cells);
                    assert(Some(former@) == link_of(lift(a0), node@));
                }
                self.release_from(former);
                true
            },
            _ => true,
        }
    }
}

proof fn lemma_lift_release_strong(a: ArenaModel<ChainNode>, slot: int)
    ensures
        lift(a.release_strong(slot)) == lift(a).release_strong(slot),
{
    assert(lift(a.release_strong(slot)).cells =~= lift(a).release_strong(slot).cells);
}

proof fn lemma_lift_clone_strong(a: ArenaModel<ChainNode>, slot: int)
    ensures
        lift(a.clone_strong(slot)) == lift(a).clone_strong(slot),
{
    assert(lift(a.clone_strong(slot)).cells =~= lift(a).clone_strong(slot).cells);
}

/// Two cells that are linked to each other leak. If `a` and `b` are each
/// held by one handle from outside and by the link of the other, then after
/// both outside handles are given up each cell still counts one strong
/// handle, still holds its item and its link, and no hook has fired: nothing
/// is left that could ever free them.
pub proof fn lemma_cycle_of_two_leaks(m: ChainModel, a: int, b: int)
    requires
        m.wf(),
        a != b,
        link_of(m, a) == Some(b),
        link_of(m, b) == Some(a),
        m.strong(a) == 2,
        m.strong(b) == 2,
    ensures
        ({
            let after = release_link(release_link(m, a), b);
            &&& after.strong(a) == 1
            &&& after.strong(b) == 1
            &&& after.value(a) == m.value(a)
            &&& after.value(b) == m.value(b)
            &&& after.fired == m.fired
            &&& after.live_count() == m.live_count()
        }),
{
    let first = release_link(m, a);
    assert(first == m.release_strong(a));
    assert(first.strong(b) == 2);
    let after = release_link(first, b);
    assert(after == first.release_strong(b));
    lemma_release_strong_counts(m, a);
    lemma_release_strong_counts(first, b);
}

} // verus!
