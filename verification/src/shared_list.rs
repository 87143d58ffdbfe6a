//! Persistent singly linked lists whose cells are shared, not copied.
//!
//! Every list cell is an owner cell. A `Cons` cell holds a strong handle to
//! the cell after it, so a list that is built on another one keeps that one
//! alive and shares its cells.

use vstd::prelude::*;
use crate::fault::Fault;
use crate::owner_cell::{ArenaModel, OwnerArena, StrongHandle};

verus! {

/// A list cell: an item and the rest of the list, or the end of the list.
#[derive(Clone, Copy, Debug, PartialEq, Eq, Structural)]
pub enum ListNode {
    Cons(i32, StrongHandle),
    Nil,
}

/// A `Cons` cell points to a cell that was made before it, so following the
/// handles always comes to an end.
pub open spec fn links_run_backwards(m: ArenaModel<ListNode>) -> bool {
    forall|i: int|
        0 <= i < m.cells.len() ==> (#[trigger] m.cells[i].value matches Some(
            ListNode::Cons(_, next),
        ) ==> next@ < i)
}

/// The items of the list that starts at `slot`, first item first. A cell that
/// is not live has no items to show, so a list ends where its next cell is
/// gone.
pub open spec fn items(m: ArenaModel<ListNode>, slot: int) -> Seq<i32>
    decreases slot,
{
    match m.value(slot) {
        Some(ListNode::Cons(item, next)) => if 0 <= next@ < slot {
            seq![item] + items(m, next@)
        } else {
            seq![item]
        },
        _ => Seq::empty(),
    }
}

/// The arena after one strong handle of the list at `slot` is given up.
/// Where that was the last handle of the first cell, the cell is emptied and
/// gives up the handle that it held on the next cell, and so on down the
/// list.
pub open spec fn release_chain(m: ArenaModel<ListNode>, slot: int) -> ArenaModel<ListNode>
    decreases slot,
{
    if m.strong(slot) == 1 {
        match m.value(slot) {
            Some(ListNode::Cons(_, next)) => if 0 <= next@ < slot {
                release_chain(m.release_strong(slot), next@)
            } else {
                m.release_strong(slot)
            },
            _ => m.release_strong(slot),
        }
    } else {
        m.release_strong(slot)
    }
}

/// The cells of all lists.
pub struct ListStore {
    cells: OwnerArena<ListNode>,
}

impl View for ListStore {
    type V = ArenaModel<ListNode>;

    closed spec fn view(&self) -> ArenaModel<ListNode> {
        self.cells@
    }
}

impl ListStore {
    /// The cells are well formed and every link points backwards.
    pub open spec fn wf(&self) -> bool {
        self@.wf() && links_run_backwards(self@)
    }

    /// A store without cells.
    pub fn new() -> (store: ListStore)
        ensures
            store.wf(),
            store@ == ArenaModel::<ListNode>::empty(),
    {
        ListStore { cells: OwnerArena::new() }
    }

    /// A new empty list.
    pub fn nil(&mut self) -> (list: StrongHandle)
        requires
            old(self).wf(),
        ensures
            final(self).wf(),
            list@ == old(self)@.cells.len(),
            final(self)@ == old(self)@.wrap(ListNode::Nil, None),
            items(final(self)@, list@) == Seq::<i32>::empty(),
    {
        self.cells.wrap(ListNode::Nil)
    }

    /// A new list of `value` followed by the list `tail`. The cells of `tail`
    /// are shared: the new cell holds one more strong handle on the first of
    /// them, and nothing is copied.
    pub fn cons(&mut self, value: i32, tail: StrongHandle) -> (list: StrongHandle)
        requires
            old(self).wf(),
            old(self)@.live(tail@),
            old(self)@.strong(tail@) < usize::MAX,
        ensures
            final(self).wf(),
            list@ == old(self)@.cells.len(),
            final(self)@ == old(self)@.clone_strong(tail@).wrap(
                ListNode::Cons(value, tail),
                None,
            ),
            final(self)@.strong(tail@) == old(self)@.strong(tail@) + 1,
            final(self)@.strong(list@) == 1,
            items(final(self)@, list@) == seq![value] + items(old(self)@, tail@),
    {
        let held = self.cells.clone_strong(tail);
        let list = self.cells.wrap(ListNode::Cons(value, held));
        proof {
            lemma_items_frame(old(self)@, self@, tail@);
        }
        list
    }

    /// Makes one more strong handle on the live list `list`. The list and
    /// every other list keep their items.
    pub fn clone_strong(&mut self, list: StrongHandle) -> (h: StrongHandle)
        requires
            old(self).wf(),
            old(self)@.live(list@),
            old(self)@.strong(list@) < usize::MAX,
        ensures
            final(self).wf(),
            h == list,
            final(self)@ == old(self)@.clone_strong(list@),
            forall|other: int| items(final(self)@, other) == items(old(self)@, other),
    {
        let h = self.cells.clone_strong(list);
        proof {
            assert forall|other: int| items(self@, other) == items(old(self)@, other) by {
                lemma_items_frame(old(self)@, self@, other);
            }
        }
        h
    }

    /// The number of strong handles on the first cell of `list`.
    pub fn strong_count(&self, list: StrongHandle) -> (n: usize)
        ensures
            n == self@.strong(list@),
    {
        self.cells.strong_count(list)
    }

    /// The first item of `list`, if it has one.
    pub fn head(&self, list: StrongHandle) -> (r: Option<i32>)
        requires
            self.wf(),
        ensures
            r == (if items(self@, list@).len() > 0 {
                Some(items(self@, list@)[0])
            } else {
                None
            }),
    {
        match self.cells.get(list) {
            Some(ListNode::Cons(item, _)) => Some(*item),
            _ => None,
        }
    }

    /// The handle that the first cell of `list` holds on the rest of the
    /// list, if `list` has a first item. The handle is the cell's own: no
    /// count changes.
    pub fn tail(&self, list: StrongHandle) -> (r: Option<StrongHandle>)
        requires
            self.wf(),
        ensures
            r is Some <==> items(self@, list@).len() > 0,
            r matches Some(rest) ==> {
                &&& self@.value(list@) matches Some(ListNode::Cons(_, next)) && next == rest
                &&& rest@ < list@
                &&& items(self@, rest@) == items(self@, list@).skip(1)
            },
    {
        match self.cells.get(list) {
            Some(ListNode::Cons(_, next)) => {
                proof {
                    assert(self@.cells[list@].value is Some);
                    assert(items(self@, list@).skip(1) =~= items(self@, next@));
                }
                Some(*next)
            },
            _ => None,
        }
    }

    /// The items of `list`, collected by walking the list from its first
    /// cell.
    pub fn to_vec(&self, list: StrongHandle) -> (out: Vec<i32>)
        requires
            self.wf(),
        ensures
            out@ == items(self@, list@),
    {
        let mut out: Vec<i32> = Vec::new();
        let mut cur = list;
        loop
            invariant
                self.wf(),
                out@ + items(self@, cur@) == items(self@, list@),
            decreases cur@,
        {
            match self.cells.get(cur) {
                Some(ListNode::Cons(item, next)) => {
                    proof {
                        assert(self@.cells[cur@].value is Some);
                        assert(out@.push(*item) + items(self@, next@) =~= out@ + items(
                            self@,
                            cur@,
                        ));
                    }
                    out.push(*item);
                    cur = *next;
                },
                _ => {
                    proof {
                        assert(out@ + items(self@, cur@) =~= out@);
                    }
                    return out;
                },
            }
        }
    }

    /// Gives up one strong handle on `list`.
    ///
    /// Where it was the last one, the first cell is emptied and gives up the
    /// handle that it held on the rest of the list, and so on for as long as
    /// cells lose their last handle. A list with no strong handle left
    /// reports `OverRelease`, and nothing changes.
    pub fn release(&mut self, list: StrongHandle) -> (r: Result<(), Fault>)
        requires
            old(self).wf(),
        ensures
            final(self).wf(),
            r is Err <==> !old(self)@.live(list@),
            r is Err ==> r == Err::<(), Fault>(Fault::OverRelease) && final(self)@ == old(self)@,
            r is Ok ==> final(self)@ == release_chain(old(self)@, list@),
    {
        if self.cells.strong_count(list) == 0 {
            return Err(Fault::OverRelease);
        }
        let mut cur = list;
        loop
            invariant
                self.wf(),
                old(self)@.live(list@),
                release_chain(self@, cur@) == release_chain(old(self)@, list@),
            decreases cur@,
        {
            let ghost before = self@;
            match self.cells.release_strong(cur) {
                Ok(Some(ListNode::Cons(_, next))) => {
                    proof {
                        assert(before.cells[cur@].value is Some);
                        lemma_release_keeps_links(before, cur@);
                    }
                    cur = next;
                },
                _ => {
                    proof {
                        lemma_release_keeps_links(before, cur@);
                    }
                    return Ok(());
                },
            }
        }
    }
}

/// The items of a list depend only on the cells at and before its first one,
/// and on them only through what they hold.
pub proof fn lemma_items_frame(a: ArenaModel<ListNode>, b: ArenaModel<ListNode>, slot: int)
    requires
        forall|j: int| 0 <= j <= slot ==> a.value(j) == b.value(j),
    ensures
        items(a, slot) == items(b, slot),
    decreases slot,
{
    if slot >= 0 {
        match a.value(slot) {
            Some(ListNode::Cons(_, next)) => {
                if 0 <= next@ < slot {
                    lemma_items_frame(a, b, next@);
                }
            },
            _ => {},
        }
    } else {
        assert(a.value(slot) is None);
        assert(b.value(slot) is None);
    }
}

/// Giving up a strong handle breaks no link: the cells keep what they hold
/// or are emptied.
pub proof fn lemma_release_keeps_links(m: ArenaModel<ListNode>, slot: int)
    requires
        m.wf(),
        links_run_backwards(m),
    ensures
        m.release_strong(slot).wf(),
        links_run_backwards(m.release_strong(slot)),
{
    let after = m.release_strong(slot);
    assert forall|i: int| 0 <= i < after.cells.len() implies (#[trigger] after.cells[i]).wf() by {
        assert(m.cells[i].wf());
    }
    assert forall|i: int| 0 <= i < after.cells.len() implies (#[trigger] after.cells[i].value
        matches Some(ListNode::Cons(_, next)) ==> next@ < i) by {
        assert(m.cells[i].value matches Some(ListNode::Cons(_, next)) ==> next@ < i);
    }
}

/// A list that is built on another one shares it and does not hold it back:
/// if `b` was made as `cons(x, a)` and `a` has another owner, then giving up
/// the last handle on `b` empties `b`, takes from `a` exactly the one handle
/// that `b` held, and leaves the items of `a` as they were.
pub proof fn lemma_release_leaves_suffix_intact(m: ArenaModel<ListNode>, b: int, a: StrongHandle)
    requires
        m.wf(),
        links_run_backwards(m),
        m.strong(b) == 1,
        m.value(b) matches Some(ListNode::Cons(_, next)) && next == a,
        m.strong(a@) >= 2,
    ensures
        !release_chain(m, b).live(b),
        release_chain(m, b).strong(a@) == m.strong(a@) - 1,
        items(release_chain(m, b), a@) == items(m, a@),
        release_chain(m, b).cells.len() == m.cells.len(),
        forall|j: int|
            m.has(j) && j != b && j != a@ ==> #[trigger] release_chain(m, b).cells[j]
                == m.cells[j],
{
    assert(m.cells[b].value is Some);
    let freed = m.release_strong(b);
    let after = freed.release_strong(a@);
    assert(release_chain(m, b) == release_chain(freed, a@));
    assert(release_chain(freed, a@) == after);
    lemma_items_frame(m, after, a@);
}

/// Building a list on `a` and giving the new list up again restores `a`:
/// `cons` adds exactly one strong handle to the first cell of `a`, the
/// release takes exactly that one away, and every cell that was there before
/// is as it was.
pub proof fn lemma_cons_then_release_restores(m: ArenaModel<ListNode>, x: i32, a: StrongHandle)
    requires
        m.wf(),
        links_run_backwards(m),
        m.live(a@),
    ensures
        ({
            let built = m.clone_strong(a@).wrap(ListNode::Cons(x, a), None);
            let b = m.cells.len() as int;
            let after = release_chain(built, b);
            &&& built.strong(a@) == m.strong(a@) + 1
            &&& items(built, b) == seq![x] + items(m, a@)
            &&& !after.live(b)
            &&& after.cells.take(b) == m.cells
            &&& items(after, a@) == items(m, a@)
        }),
{
    let built = m.clone_strong(a@).wrap(ListNode::Cons(x, a), None);
    let b = m.cells.len() as int;
    assert(m.cells[a@].wf());
    lemma_items_frame(m, built, a@);
    let freed = built.release_strong(b);
    let after = freed.release_strong(a@);
    assert(release_chain(built, b) == release_chain(freed, a@));
    assert(release_chain(freed, a@) == after);
    assert(after.cells.take(b) =~= m.cells);
    lemma_items_frame(m, after, a@);
}

} // verus!
