//! Owner cells: values kept alive by counted strong handles and observed
//! through counted weak handles.
//!
//! The cells live in an [`OwnerArena`]. A handle is the stable index of a
//! cell; an index is never handed out twice. Every operation first looks the
//! cell up and checks its counts, so a handle that has outlived its cell is
//! detected and never read through.
//!
//! A release hook is registered by a number of the caller's choice. When the
//! last strong handle of a cell is given up, the arena writes the number at
//! the end of its log of fired hooks, once, and hands the payload back; the
//! holder of the arena runs whatever the number stands for.

use vstd::prelude::*;
use crate::fault::Fault;

verus! {

/// One owner cell, as mathematics.
pub struct CellModel<T> {
    /// The payload, present exactly while a strong handle exists.
    pub value: Option<T>,
    /// How many strong handles exist.
    pub strong: nat,
    /// How many weak handles exist.
    pub weak: nat,
    /// The release hook that has been registered and has not fired yet.
    pub hook: Option<u64>,
}

impl<T> CellModel<T> {
    /// The payload is held exactly while the cell is strongly owned, and a
    /// hook waits only on a cell that is strongly owned.
    pub open spec fn wf(self) -> bool {
        &&& self.strong == 0 <==> self.value is None
        &&& self.strong == 0 ==> self.hook is None
    }

    /// A cell as `wrap` creates it.
    pub open spec fn fresh(value: T, hook: Option<u64>) -> Self {
        CellModel { value: Some(value), strong: 1, weak: 0, hook }
    }

    /// The cell once its last strong handle is gone.
    pub open spec fn emptied(self) -> Self {
        CellModel { value: None, strong: 0, weak: self.weak, hook: None }
    }

    /// Neither kind of handle is left: the allocation can be reclaimed.
    pub open spec fn reclaimed(self) -> bool {
        self.strong == 0 && self.weak == 0
    }
}

/// An arena of owner cells, as mathematics.
pub struct ArenaModel<T> {
    /// The cells, by handle index.
    pub cells: Seq<CellModel<T>>,
    /// The hooks that have fired so far, oldest first.
    pub fired: Seq<u64>,
}

impl<T> ArenaModel<T> {
    /// Every cell is well formed.
    pub open spec fn wf(self) -> bool {
        forall|i: int| 0 <= i < self.cells.len() ==> (#[trigger] self.cells[i]).wf()
    }

    /// The arena without cells, in which nothing has fired.
    pub open spec fn empty() -> Self {
        ArenaModel { cells: Seq::empty(), fired: Seq::empty() }
    }

    /// Whether a cell was ever created at `slot`.
    pub open spec fn has(self, slot: int) -> bool {
        0 <= slot < self.cells.len()
    }

    /// The number of strong handles of the cell at `slot`; zero where there
    /// is no such cell.
    pub open spec fn strong(self, slot: int) -> nat {
        if self.has(slot) { self.cells[slot].strong } else { 0 }
    }

    /// The number of weak handles of the cell at `slot`; zero where there is
    /// no such cell.
    pub open spec fn weak(self, slot: int) -> nat {
        if self.has(slot) { self.cells[slot].weak } else { 0 }
    }

    /// Whether the cell at `slot` has a strong handle, and so a payload.
    pub open spec fn live(self, slot: int) -> bool {
        self.strong(slot) > 0
    }

    /// The payload of the cell at `slot`, if it holds one.
    pub open spec fn value(self, slot: int) -> Option<T> {
        if self.has(slot) { self.cells[slot].value } else { None }
    }

    /// The hook that waits on the cell at `slot`, if one does.
    pub open spec fn hook(self, slot: int) -> Option<u64> {
        if self.has(slot) { self.cells[slot].hook } else { None }
    }

    /// The arena with one more cell, which holds `value` under one strong
    /// handle.
    pub open spec fn wrap(self, value: T, hook: Option<u64>) -> Self {
        ArenaModel { cells: self.cells.push(CellModel::fresh(value, hook)), fired: self.fired }
    }

    /// One more strong handle for a live cell. A cell that is not live stays
    /// as it is: nothing revives it.
    pub open spec fn clone_strong(self, slot: int) -> Self {
        if self.live(slot) {
            let c = self.cells[slot];
            ArenaModel {
                cells: self.cells.update(slot, CellModel { strong: c.strong + 1, ..c }),
                fired: self.fired,
            }
        } else {
            self
        }
    }

    /// One more weak handle for the cell at `slot`.
    pub open spec fn clone_weak(self, slot: int) -> Self {
        if self.has(slot) {
            let c = self.cells[slot];
            ArenaModel {
                cells: self.cells.update(slot, CellModel { weak: c.weak + 1, ..c }),
                fired: self.fired,
            }
        } else {
            self
        }
    }

    /// One strong handle fewer. Giving up the last one empties the cell and
    /// fires its hook. Where no strong handle is left, nothing changes.
    pub open spec fn release_strong(self, slot: int) -> Self {
        if !self.live(slot) {
            self
        } else if self.cells[slot].strong == 1 {
            ArenaModel {
                cells: self.cells.update(slot, self.cells[slot].emptied()),
                fired: match self.cells[slot].hook {
                    Some(h) => self.fired.push(h),
                    None => self.fired,
                },
            }
        } else {
            let c = self.cells[slot];
            ArenaModel {
                cells: self.cells.update(slot, CellModel { strong: (c.strong - 1) as nat, ..c }),
                fired: self.fired,
            }
        }
    }

    /// One weak handle fewer. Where no weak handle is left, nothing changes.
    pub open spec fn release_weak(self, slot: int) -> Self {
        if self.weak(slot) == 0 {
            self
        } else {
            let c = self.cells[slot];
            ArenaModel {
                cells: self.cells.update(slot, CellModel { weak: (c.weak - 1) as nat, ..c }),
                fired: self.fired,
            }
        }
    }

    /// How many cells are live.
    pub open spec fn live_count(self) -> nat {
        live_among(self.cells)
    }

    /// The arena with `value` as the payload of the live cell at `slot`.
    pub open spec fn with_value(self, slot: int, value: T) -> Self {
        if self.live(slot) {
            let c = self.cells[slot];
            ArenaModel {
                cells: self.cells.update(slot, CellModel { value: Some(value), ..c }),
                fired: self.fired,
            }
        } else {
            self
        }
    }
}

/// How many of `cells` are live.
pub open spec fn live_among<T>(cells: Seq<CellModel<T>>) -> nat
    decreases cells.len(),
{
    if cells.len() == 0 {
        0
    } else {
        live_among(cells.drop_last()) + if cells.last().strong > 0 {
            1nat
        } else {
            0nat
        }
    }
}

/// Replacing one cell changes the number of live cells by what that cell
/// contributes.
pub proof fn lemma_live_among_update<T>(cells: Seq<CellModel<T>>, slot: int, cell: CellModel<T>)
    requires
        0 <= slot < cells.len(),
    ensures
        live_among(cells.update(slot, cell)) + (if cells[slot].strong > 0 {
            1nat
        } else {
            0nat
        }) == live_among(cells) + (if cell.strong > 0 {
            1nat
        } else {
            0nat
        }),
    decreases cells.len(),
{
    let updated = cells.update(slot, cell);
    if slot == cells.len() - 1 {
        assert(updated.drop_last() =~= cells.drop_last());
    } else {
        assert(updated.drop_last() =~= cells.drop_last().update(slot, cell));
        lemma_live_among_update(cells.drop_last(), slot, cell);
    }
}

/// Giving up a strong handle leaves one cell fewer live if it was the last
/// handle of its cell, and as many as before otherwise.
pub proof fn lemma_release_strong_counts<T>(m: ArenaModel<T>, slot: int)
    ensures
        m.release_strong(slot).live_count() + (if m.strong(slot) == 1 {
            1nat
        } else {
            0nat
        }) == m.live_count(),
{
    if m.live(slot) {
        let c = m.cells[slot];
        if c.strong == 1 {
            lemma_live_among_update(m.cells, slot, c.emptied());
        } else {
            lemma_live_among_update(
                m.cells,
                slot,
                CellModel { strong: (c.strong - 1) as nat, ..c },
            );
        }
    }
}

/// A strong handle: the index of the cell that it keeps alive.
#[derive(Clone, Copy, Debug, PartialEq, Eq, Structural)]
pub struct StrongHandle {
    pub slot: usize,
}

impl View for StrongHandle {
    type V = int;

    open spec fn view(&self) -> int {
        self.slot as int
    }
}

/// A weak handle: the index of a cell that it observes without keeping it
/// alive, or nothing at all.
#[derive(Clone, Copy, Debug, PartialEq, Eq, Structural)]
pub struct WeakHandle {
    pub slot: Option<usize>,
}

impl View for WeakHandle {
    type V = Option<int>;

    open spec fn view(&self) -> Option<int> {
        match self.slot {
            Some(i) => Some(i as int),
            None => None,
        }
    }
}

impl WeakHandle {
    /// A weak handle that observes no cell. Upgrading it always fails.
    pub fn empty() -> (w: WeakHandle)
        ensures
            w@ is None,
    {
        WeakHandle { slot: None }
    }

    /// Whether this handle observes no cell.
    pub fn is_empty(&self) -> (b: bool)
        ensures
            b == (self@ is None),
    {
        self.slot.is_none()
    }
}

struct Slot<T> {
    value: Option<T>,
    strong: usize,
    weak: usize,
    hook: Option<u64>,
}

impl<T> Slot<T> {
    spec fn model(self) -> CellModel<T> {
        CellModel {
            value: self.value,
            strong: self.strong as nat,
            weak: self.weak as nat,
            hook: self.hook,
        }
    }
}

/// The arena that holds the owner cells.
pub struct OwnerArena<T> {
    slots: Vec<Slot<T>>,
    fired: Vec<u64>,
}

impl<T> View for OwnerArena<T> {
    type V = ArenaModel<T>;

    closed spec fn view(&self) -> ArenaModel<T> {
        ArenaModel {
            cells: Seq::new(self.slots@.len(), |i: int| self.slots@[i].model()),
            fired: self.fired@,
        }
    }
}

impl<T> OwnerArena<T> {
    /// Every cell of the arena is well formed.
    pub open spec fn wf(&self) -> bool {
        self@.wf()
    }

    /// An arena without cells.
    pub fn new() -> (arena: OwnerArena<T>)
        ensures
            arena.wf(),
            arena@ == ArenaModel::<T>::empty(),
    {
        let arena = OwnerArena { slots: Vec::new(), fired: Vec::new() };
        assert(arena@.cells =~= Seq::<CellModel<T>>::empty());
        arena
    }

    /// The number of cells that were ever created here.
    pub fn len(&self) -> (n: usize)
        ensures
            n == self@.cells.len(),
    {
        self.slots.len()
    }

    /// Puts `value` into a new cell and hands out its first strong handle.
    /// No release hook is registered.
    pub fn wrap(&mut self, value: T) -> (h: StrongHandle)
        requires
            old(self).wf(),
        ensures
            final(self).wf(),
            h@ == old(self)@.cells.len(),
            final(self)@ == old(self)@.wrap(value, None),
    {
        self.wrap_slot(value, None)
    }

    /// Puts `value` into a new cell, registers `hook` as its release hook and
    /// hands out the first strong handle.
    pub fn wrap_with_hook(&mut self, value: T, hook: u64) -> (h: StrongHandle)
        requires
            old(self).wf(),
        ensures
            final(self).wf(),
            h@ == old(self)@.cells.len(),
            final(self)@ == old(self)@.wrap(value, Some(hook)),
    {
        self.wrap_slot(value, Some(hook))
    }

    fn wrap_slot(&mut self, value: T, hook: Option<u64>) -> (h: StrongHandle)
        requires
            old(self).wf(),
        ensures
            final(self).wf(),
            h@ == old(self)@.cells.len(),
            final(self)@ == old(self)@.wrap(value, hook),
    {
        let slot = self.slots.len();
        self.slots.push(Slot { value: Some(value), strong: 1, weak: 0, hook });
        assert(self@.cells =~= old(self)@.cells.push(CellModel::fresh(value, hook)));
        StrongHandle { slot }
    }

    /// The number of strong handles of the cell that `h` names.
    pub fn strong_count(&self, h: StrongHandle) -> (n: usize)
        ensures
            n == self@.strong(h@),
    {
        if h.slot < self.slots.len() {
            self.slots[h.slot].strong
        } else {
            0
        }
    }

    /// The number of weak handles of the cell that `h` names.
    pub fn weak_count(&self, h: StrongHandle) -> (n: usize)
        ensures
            n == self@.weak(h@),
    {
        if h.slot < self.slots.len() {
            self.slots[h.slot].weak
        } else {
            0
        }
    }

    /// Whether the cell that `h` names has no handle of either kind left, so
    /// that nothing can reach it any more and its allocation is reclaimed.
    pub fn is_reclaimed(&self, h: StrongHandle) -> (b: bool)
        ensures
            b == (self@.has(h@) && self@.cells[h@].reclaimed()),
    {
        if h.slot < self.slots.len() {
            self.slots[h.slot].strong == 0 && self.slots[h.slot].weak == 0
        } else {
            false
        }
    }

    /// The payload of the cell that `h` names, while the cell is live.
    pub fn get(&self, h: StrongHandle) -> (r: Option<&T>)
        requires
            self.wf(),
        ensures
            r is Some <==> self@.live(h@),
            r is Some ==> Some(*r->0) == self@.value(h@),
    {
        if h.slot < self.slots.len() {
            assert(self@.cells[h.slot as int].wf());
            self.slots[h.slot].value.as_ref()
        } else {
            None
        }
    }

    /// Puts `value` in place of the payload of the live cell that `h` names
    /// and hands the former payload back. The counts and the hook stay as
    /// they are. Where the cell is not live, nothing changes and `value`
    /// comes back as the error.
    pub fn replace(&mut self, h: StrongHandle, value: T) -> (r: Result<T, T>)
        requires
            old(self).wf(),
        ensures
            final(self).wf(),
            r is Ok <==> old(self)@.live(h@),
            r matches Ok(former) ==> Some(former) == old(self)@.value(h@),
            r matches Err(given) ==> given == value,
            final(self)@ == old(self)@.with_value(h@, value),
    {
        if h.slot >= self.slots.len() {
            return Err(value);
        }
        assert(self@.cells[h@].wf());
        let slot = &mut self.slots[h.slot];
        match slot.value.take() {
            Some(former) => {
                slot.value = Some(value);
                proof {
                    assert(self@.cells =~= old(self)@.with_value(h@, value).cells);
                }
                Ok(former)
            },
            None => {
                proof {
                    assert(self@.cells =~= old(self)@.cells);
                }
                Err(value)
            },
        }
    }

    /// Makes one more strong handle for the live cell that `h` names.
    pub fn clone_strong(&mut self, h: StrongHandle) -> (h2: StrongHandle)
        requires
            old(self).wf(),
            old(self)@.live(h@),
            old(self)@.strong(h@) < usize::MAX,
        ensures
            final(self).wf(),
            h2 == h,
            final(self)@ == old(self)@.clone_strong(h@),
    {
        let n = self.slots[h.slot].strong;
        self.slots[h.slot].strong = n + 1;
        proof {
            assert(old(self)@.cells[h@].wf());
            assert(self@.cells =~= old(self)@.clone_strong(h@).cells);
        }
        h
    }

    /// Makes a weak handle for the live cell that `h` names.
    pub fn clone_weak(&mut self, h: StrongHandle) -> (w: WeakHandle)
        requires
            old(self).wf(),
            old(self)@.live(h@),
            old(self)@.weak(h@) < usize::MAX,
        ensures
            final(self).wf(),
            w@ == Some(h@),
            final(self)@ == old(self)@.clone_weak(h@),
    {
        let n = self.slots[h.slot].weak;
        self.slots[h.slot].weak = n + 1;
        proof {
            assert(old(self)@.cells[h@].wf());
            assert(self@.cells =~= old(self)@.clone_weak(h@).cells);
        }
        WeakHandle { slot: Some(h.slot) }
    }

    /// Makes one more weak handle for the cell that `w` observes. An empty
    /// handle is copied and counts nowhere.
    pub fn clone_weak_handle(&mut self, w: WeakHandle) -> (w2: WeakHandle)
        requires
            old(self).wf(),
            w@ matches Some(slot) ==> 0 < old(self)@.weak(slot) < usize::MAX,
        ensures
            final(self).wf(),
            w2 == w,
            final(self)@ == (match w@ {
                Some(slot) => old(self)@.clone_weak(slot),
                None => old(self)@,
            }),
    {
        match w.slot {
            Some(i) => {
                let n = self.slots[i].weak;
                self.slots[i].weak = n + 1;
                proof {
                    assert(old(self)@.cells[i as int].wf());
                    assert(self@.cells =~= old(self)@.clone_weak(i as int).cells);
                }
            },
            None => {},
        }
        w
    }

    /// Gives up one strong handle of the cell that `h` names.
    ///
    /// Giving up the last one empties the cell, fires its release hook and
    /// hands the payload back. Where no strong handle is left, the arena
    /// stays as it is and the call reports `OverRelease`.
    pub fn release_strong(&mut self, h: StrongHandle) -> (r: Result<Option<T>, Fault>)
        requires
            old(self).wf(),
        ensures
            final(self).wf(),
            final(self)@ == old(self)@.release_strong(h@),
            r is Err <==> !old(self)@.live(h@),
            r is Err ==> r == Err::<Option<T>, Fault>(Fault::OverRelease),
            r matches Ok(payload) ==> payload == (if old(self)@.strong(h@) == 1 {
                old(self)@.value(h@)
            } else {
                None
            }),
    {
        if h.slot >= self.slots.len() {
            return Err(Fault::OverRelease);
        }
        assert(self@.cells[h@].wf());
        let n = self.slots[h.slot].strong;
        if n == 0 {
            Err(Fault::OverRelease)
        } else if n == 1 {
            let slot = &mut self.slots[h.slot];
            let payload = slot.value.take();
            let hook = slot.hook.take();
            slot.strong = 0;
            match hook {
                Some(id) => {
                    self.fired.push(id);
                },
                None => {},
            }
            proof {
                assert(self@.cells =~= old(self)@.release_strong(h@).cells);
            }
            Ok(payload)
        } else {
            self.slots[h.slot].strong = n - 1;
            proof {
                assert(self@.cells =~= old(self)@.release_strong(h@).cells);
            }
            Ok(None)
        }
    }

    /// Gives up the weak handle `w`.
    ///
    /// No hook fires and no payload is touched. Once neither kind of handle
    /// is left, the cell is reclaimed. An empty handle counts nowhere, so
    /// giving it up changes nothing. Where the observed cell has no weak
    /// handle left, the arena stays as it is and the call reports
    /// `OverRelease`.
    pub fn release_weak(&mut self, w: WeakHandle) -> (r: Result<(), Fault>)
        requires
            old(self).wf(),
        ensures
            final(self).wf(),
            final(self)@ == (match w@ {
                Some(slot) => old(self)@.release_weak(slot),
                None => old(self)@,
            }),
            r is Err <==> (w@ matches Some(slot) && old(self)@.weak(slot) == 0),
            r is Err ==> r == Err::<(), Fault>(Fault::OverRelease),
    {
        match w.slot {
            None => Ok(()),
            Some(i) => {
                if i >= self.slots.len() {
                    return Err(Fault::OverRelease);
                }
                assert(self@.cells[i as int].wf());
                let n = self.slots[i].weak;
                if n == 0 {
                    Err(Fault::OverRelease)
                } else {
                    self.slots[i].weak = n - 1;
                    proof {
                        assert(self@.cells =~= old(self)@.release_weak(i as int).cells);
                    }
                    Ok(())
                }
            },
        }
    }

    /// Turns the weak handle `w` into a strong one, if the observed cell is
    /// still live. A successful upgrade counts as one more strong handle.
    pub fn upgrade(&mut self, w: WeakHandle) -> (r: Option<StrongHandle>)
        requires
            old(self).wf(),
            w@ matches Some(slot) ==> old(self)@.strong(slot) < usize::MAX,
        ensures
            final(self).wf(),
            r is Some <==> (w@ matches Some(slot) && old(self)@.live(slot)),
            r matches Some(h) ==> w@ == Some(h@),
            final(self)@ == (match w@ {
                Some(slot) => old(self)@.clone_strong(slot),
                None => old(self)@,
            }),
    {
        match w.slot {
            None => None,
            Some(i) => {
                if i >= self.slots.len() {
                    return None;
                }
                assert(self@.cells[i as int].wf());
                let n = self.slots[i].strong;
                if n == 0 {
                    None
                } else {
                    self.slots[i].strong = n + 1;
                    proof {
                        assert(self@.cells =~= old(self)@.clone_strong(i as int).cells);
                    }
                    Some(StrongHandle { slot: i })
                }
            },
        }
    }

    /// The hooks that have fired so far, oldest first.
    pub fn fired(&self) -> (log: &Vec<u64>)
        ensures
            log@ == self@.fired,
    {
        &self.fired
    }
}

} // verus!
