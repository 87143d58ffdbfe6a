//! Access cells: a value behind a borrow state that is checked at the moment
//! a borrow is requested.
//!
//! A cell is unborrowed, borrowed by one or more readers, or borrowed by one
//! writer. A successful borrow hands out a guard; giving the guard back
//! withdraws the claim. `with_shared` and `with_exclusive` do both around a
//! function of the caller, so that the claim is withdrawn however the
//! function ends.

use vstd::prelude::*;
use crate::fault::Fault;

verus! {

/// The borrow state of an access cell, as mathematics.
pub enum BorrowModel {
    Unborrowed,
    /// Borrowed by this many readers, at least one.
    SharedBorrowed(nat),
    ExclusiveBorrowed,
}

impl BorrowModel {
    /// A shared count is never zero: a cell without readers is unborrowed.
    pub open spec fn wf(self) -> bool {
        self matches BorrowModel::SharedBorrowed(n) ==> n >= 1
    }

    /// The state after a shared borrow is requested, or the fault that the
    /// request meets.
    pub open spec fn borrow_shared(self) -> Result<BorrowModel, Fault> {
        match self {
            BorrowModel::Unborrowed => Ok(BorrowModel::SharedBorrowed(1)),
            BorrowModel::SharedBorrowed(n) => Ok(BorrowModel::SharedBorrowed(n + 1)),
            BorrowModel::ExclusiveBorrowed => Err(Fault::BorrowConflict),
        }
    }

    /// The state after an exclusive borrow is requested, or the fault that
    /// the request meets.
    pub open spec fn borrow_exclusive(self) -> Result<BorrowModel, Fault> {
        match self {
            BorrowModel::Unborrowed => Ok(BorrowModel::ExclusiveBorrowed),
            _ => Err(Fault::BorrowConflict),
        }
    }

    /// The state after a shared guard is given back, or the fault where the
    /// cell has no reader.
    pub open spec fn release_shared(self) -> Result<BorrowModel, Fault> {
        match self {
            BorrowModel::SharedBorrowed(n) => if n <= 1 {
                Ok(BorrowModel::Unborrowed)
            } else {
                Ok(BorrowModel::SharedBorrowed((n - 1) as nat))
            },
            _ => Err(Fault::OverRelease),
        }
    }

    /// The state after the exclusive guard is given back, or the fault where
    /// the cell has no writer.
    pub open spec fn release_exclusive(self) -> Result<BorrowModel, Fault> {
        match self {
            BorrowModel::ExclusiveBorrowed => Ok(BorrowModel::Unborrowed),
            _ => Err(Fault::OverRelease),
        }
    }

    /// The state after `n` shared borrows in a row, none of them given back.
    pub open spec fn shared_by(self, n: nat) -> Result<BorrowModel, Fault>
        decreases n,
    {
        if n == 0 {
            Ok(self)
        } else {
            match self.borrow_shared() {
                Ok(next) => next.shared_by((n - 1) as nat),
                Err(e) => Err(e),
            }
        }
    }

    /// The state after `n` shared guards are given back in a row.
    pub open spec fn unshared_by(self, n: nat) -> Result<BorrowModel, Fault>
        decreases n,
    {
        if n == 0 {
            Ok(self)
        } else {
            match self.release_shared() {
                Ok(next) => next.unshared_by((n - 1) as nat),
                Err(e) => Err(e),
            }
        }
    }
}

/// The borrow state of an access cell.
#[derive(Clone, Copy, Debug, PartialEq, Eq, Structural)]
pub enum BorrowState {
    Unborrowed,
    /// Borrowed by this many readers, at least one.
    SharedBorrowed(usize),
    ExclusiveBorrowed,
}

impl View for BorrowState {
    type V = BorrowModel;

    open spec fn view(&self) -> BorrowModel {
        match *self {
            BorrowState::Unborrowed => BorrowModel::Unborrowed,
            BorrowState::SharedBorrowed(n) => BorrowModel::SharedBorrowed(n as nat),
            BorrowState::ExclusiveBorrowed => BorrowModel::ExclusiveBorrowed,
        }
    }
}

/// The claim of one reader on an access cell.
#[derive(Debug)]
pub struct SharedGuard {
    claim: (),
}

/// The claim of the one writer on an access cell.
#[derive(Debug)]
pub struct ExclusiveGuard {
    claim: (),
}

/// An access cell, as mathematics: the value and the borrow state.
pub struct AccessModel<T> {
    pub value: T,
    pub state: BorrowModel,
}

/// A value that is read and written under a borrow discipline checked at run
/// time.
pub struct AccessCell<T> {
    value: T,
    state: BorrowState,
}

impl<T> View for AccessCell<T> {
    type V = AccessModel<T>;

    closed spec fn view(&self) -> AccessModel<T> {
        AccessModel { value: self.value, state: self.state@ }
    }
}

impl<T> AccessCell<T> {
    /// The shared count, where there is one, is at least one.
    pub open spec fn wf(&self) -> bool {
        self@.state.wf()
    }

    /// An unborrowed cell that holds `value`.
    pub fn new(value: T) -> (cell: AccessCell<T>)
        ensures
            cell.wf(),
            cell@ == (AccessModel { value, state: BorrowModel::Unborrowed }),
    {
        AccessCell { value, state: BorrowState::Unborrowed }
    }

    /// The current borrow state.
    pub fn state(&self) -> (s: BorrowState)
        ensures
            s@ == self@.state,
    {
        self.state
    }

    /// Requests a shared borrow. It is granted unless the cell is borrowed
    /// exclusively; a refused request reports `BorrowConflict` and leaves the
    /// cell as it is.
    pub fn borrow_shared(&mut self) -> (r: Result<SharedGuard, Fault>)
        requires
            old(self).wf(),
            old(self)@.state matches BorrowModel::SharedBorrowed(n) ==> n < usize::MAX,
        ensures
            final(self).wf(),
            final(self)@.value == old(self)@.value,
            match old(self)@.state.borrow_shared() {
                Ok(next) => r is Ok && final(self)@.state == next,
                Err(fault) => r == Err::<SharedGuard, Fault>(fault) && final(self)@.state == old(
                    self,
                )@.state,
            },
    {
        match self.state {
            BorrowState::Unborrowed => {
                self.state = BorrowState::SharedBorrowed(1);
                Ok(SharedGuard { claim: () })
            },
            BorrowState::SharedBorrowed(n) => {
                self.state = BorrowState::SharedBorrowed(n + 1);
                Ok(SharedGuard { claim: () })
            },
            BorrowState::ExclusiveBorrowed => Err(Fault::BorrowConflict),
        }
    }

    /// Requests the exclusive borrow. It is granted only to an unborrowed
    /// cell; a refused request reports `BorrowConflict` and leaves the cell
    /// as it is.
    pub fn borrow_exclusive(&mut self) -> (r: Result<ExclusiveGuard, Fault>)
        requires
            old(self).wf(),
        ensures
            final(self).wf(),
            final(self)@.value == old(self)@.value,
            match old(self)@.state.borrow_exclusive() {
                Ok(next) => r is Ok && final(self)@.state == next,
                Err(fault) => r == Err::<ExclusiveGuard, Fault>(fault) && final(self)@.state
                    == old(self)@.state,
            },
    {
        match self.state {
            BorrowState::Unborrowed => {
                self.state = BorrowState::ExclusiveBorrowed;
                Ok(ExclusiveGuard { claim: () })
            },
            _ => Err(Fault::BorrowConflict),
        }
    }

    /// Gives a shared guard back. The last reader to leave makes the cell
    /// unborrowed. A cell without readers reports `OverRelease` and stays as
    /// it is.
    pub fn release_shared(&mut self, guard: SharedGuard) -> (r: Result<(), Fault>)
        requires
            old(self).wf(),
        ensures
            final(self).wf(),
            final(self)@.value == old(self)@.value,
            match old(self)@.state.release_shared() {
                Ok(next) => r is Ok && final(self)@.state == next,
                Err(fault) => r == Err::<(), Fault>(fault) && final(self)@.state == old(
                    self,
                )@.state,
            },
    {
        match self.state {
            BorrowState::SharedBorrowed(n) => {
                if n <= 1 {
                    self.state = BorrowState::Unborrowed;
                } else {
                    self.state = BorrowState::SharedBorrowed(n - 1);
                }
                Ok(())
            },
            _ => Err(Fault::OverRelease),
        }
    }

    /// Gives the exclusive guard back and makes the cell unborrowed. A cell
    /// without a writer reports `OverRelease` and stays as it is.
    pub fn release_exclusive(&mut self, guard: ExclusiveGuard) -> (r: Result<(), Fault>)
        requires
            old(self).wf(),
        ensures
            final(self).wf(),
            final(self)@.value == old(self)@.value,
            match old(self)@.state.release_exclusive() {
                Ok(next) => r is Ok && final(self)@.state == next,
                Err(fault) => r == Err::<(), Fault>(fault) && final(self)@.state == old(
                    self,
                )@.state,
            },
    {
        match self.state {
            BorrowState::ExclusiveBorrowed => {
                self.state = BorrowState::Unborrowed;
                Ok(())
            },
            _ => Err(Fault::OverRelease),
        }
    }

    /// The value, for the holder of a shared guard. A cell that is not
    /// borrowed by readers shows nothing.
    pub fn read(&self, guard: &SharedGuard) -> (r: Option<&T>)
        ensures
            r is Some <==> self@.state is SharedBorrowed,
            r matches Some(v) ==> *v == self@.value,
    {
        match self.state {
            BorrowState::SharedBorrowed(_) => Some(&self.value),
            _ => None,
        }
    }

    /// The value, for the holder of the exclusive guard. A cell that is not
    /// borrowed by a writer shows nothing.
    pub fn read_exclusive(&self, guard: &ExclusiveGuard) -> (r: Option<&T>)
        ensures
            r is Some <==> self@.state is ExclusiveBorrowed,
            r matches Some(v) ==> *v == self@.value,
    {
        match self.state {
            BorrowState::ExclusiveBorrowed => Some(&self.value),
            _ => None,
        }
    }

    /// The value, for a reader that comes and goes at once: a shared borrow
    /// that is given back before anyone else can ask. It is refused, and
    /// shows nothing, exactly where a shared borrow would be refused.
    pub fn peek(&self) -> (r: Option<&T>)
        ensures
            r is Some <==> self@.state.borrow_shared() is Ok,
            r matches Some(v) ==> *v == self@.value,
    {
        match self.state {
            BorrowState::ExclusiveBorrowed => None,
            _ => Some(&self.value),
        }
    }

    /// Puts `value` into the cell, for the holder of the exclusive guard, and
    /// hands the former value back. A cell that is not borrowed by a writer
    /// stays as it is and hands `value` back as the error.
    pub fn write(&mut self, guard: &ExclusiveGuard, value: T) -> (r: Result<T, T>)
        ensures
            final(self)@.state == old(self)@.state,
            r is Ok <==> old(self)@.state is ExclusiveBorrowed,
            r matches Ok(former) ==> former == old(self)@.value && final(self)@.value == value,
            r matches Err(given) ==> given == value && final(self)@.value == old(self)@.value,
    {
        match self.state {
            BorrowState::ExclusiveBorrowed => {
                let mut incoming = value;
                core::mem::swap(&mut self.value, &mut incoming);
                Ok(incoming)
            },
            _ => Err(value),
        }
    }

    /// Runs `f` on the value under a shared borrow of its own: the borrow is
    /// requested before `f` runs and given back when `f` has returned, so the
    /// cell is left as it was found. Where the borrow is refused, `f` does
    /// not run and the call reports `BorrowConflict`.
    pub fn with_shared<R, F: FnOnce(&T) -> R>(&mut self, f: F) -> (r: Result<R, Fault>)
        requires
            old(self).wf(),
            old(self)@.state matches BorrowModel::SharedBorrowed(n) ==> n < usize::MAX,
            call_requires(f, (&old(self)@.value,)),
        ensures
            final(self).wf(),
            final(self)@ == old(self)@,
            match old(self)@.state.borrow_shared() {
                Ok(_) => r matches Ok(out) && call_ensures(f, (&old(self)@.value,), out),
                Err(fault) => r == Err::<R, Fault>(fault),
            },
    {
        match self.borrow_shared() {
            Ok(guard) => {
                let out = f(&self.value);
                let _ = self.release_shared(guard);
                Ok(out)
            },
            Err(fault) => Err(fault),
        }
    }

    /// Runs `f` on the value under an exclusive borrow of its own: the borrow
    /// is requested before `f` runs and given back when `f` has returned.
    /// The value is then what `f` left behind, and the cell is unborrowed as
    /// before. Where the borrow is refused, `f` does not run, nothing changes
    /// and the call reports `BorrowConflict`.
    pub fn with_exclusive<R, F: FnOnce(&mut T) -> R>(&mut self, f: F) -> (r: Result<R, Fault>)
        requires
            old(self).wf(),
            forall|v: &mut T| *v == old(self)@.value ==> call_requires(f, (v,)),
        ensures
            final(self).wf(),
            final(self)@.state == old(self)@.state,
            match old(self)@.state.borrow_exclusive() {
                Ok(_) => r matches Ok(out) && exists|v: &mut T|
                    *v == old(self)@.value && *final(v) == final(self)@.value && call_ensures(
                        f,
                        (v,),
                        out,
                    ),
                Err(fault) => r == Err::<R, Fault>(fault) && final(self)@.value == old(
                    self,
                )@.value,
            },
    {
        match self.borrow_exclusive() {
            Ok(guard) => {
                let out = f(&mut self.value);
                let _ = self.release_exclusive(guard);
                Ok(out)
            },
            Err(fault) => Err(fault),
        }
    }

    /// Takes the cell apart and hands out its value.
    pub fn into_inner(self) -> (v: T)
        ensures
            v == self@.value,
    {
        self.value
    }
}

/// An exclusive borrow excludes every other borrow until it is given back:
/// on an unborrowed cell the exclusive borrow is granted; while it is held, a
/// shared and an exclusive request both meet `BorrowConflict`; and once it is
/// given back, the cell is unborrowed again and grants either request.
pub proof fn lemma_exclusive_excludes_until_released(s: BorrowModel)
    requires
        s is Unborrowed,
    ensures
        s.borrow_exclusive() matches Ok(held) && {
            &&& held.borrow_shared() == Err::<BorrowModel, Fault>(Fault::BorrowConflict)
            &&& held.borrow_exclusive() == Err::<BorrowModel, Fault>(Fault::BorrowConflict)
            &&& held.release_exclusive() matches Ok(free) && {
                &&& free is Unborrowed
                &&& free.borrow_shared() is Ok
                &&& free.borrow_exclusive() is Ok
            }
        },
{
}

/// Readers exclude the writer until the last of them has left: after `n`
/// shared borrows of an unborrowed cell, with `k` of them given back, an
/// exclusive request is granted exactly if `k` is `n`.
pub proof fn lemma_shared_excludes_exclusive(n: nat, k: nat)
    requires
        k <= n,
    ensures
        BorrowModel::Unborrowed.shared_by(n) matches Ok(read) && {
            &&& read.wf()
            &&& read.unshared_by(k) matches Ok(left) && {
                &&& left.wf()
                &&& left.borrow_exclusive() is Ok <==> k == n
            }
        },
{
    lemma_shared_by(BorrowModel::Unborrowed, n);
    let read = BorrowModel::Unborrowed.shared_by(n)->Ok_0;
    lemma_unshared_by(read, n, k);
}

proof fn lemma_shared_by(s: BorrowModel, n: nat)
    requires
        s.wf(),
        !(s is ExclusiveBorrowed),
    ensures
        s.shared_by(n) matches Ok(after) && after == (match s {
            BorrowModel::SharedBorrowed(m) => BorrowModel::SharedBorrowed(m + n),
            _ => if n == 0 {
                BorrowModel::Unborrowed
            } else {
                BorrowModel::SharedBorrowed(n)
            },
        }),
    decreases n,
{
    if n > 0 {
        lemma_shared_by(s.borrow_shared()->Ok_0, (n - 1) as nat);
    }
}

proof fn lemma_unshared_by(s: BorrowModel, readers: nat, k: nat)
    requires
        k <= readers,
        s == (if readers == 0 {
            BorrowModel::Unborrowed
        } else {
            BorrowModel::SharedBorrowed(readers)
        }),
    ensures
        s.unshared_by(k) matches Ok(after) && after == (if readers == k {
            BorrowModel::Unborrowed
        } else {
            BorrowModel::SharedBorrowed((readers - k) as nat)
        }),
    decreases k,
{
    if k > 0 {
        let next = s.release_shared()->Ok_0;
        lemma_unshared_by(next, (readers - 1) as nat, (k - 1) as nat);
    }
}

} // verus!
