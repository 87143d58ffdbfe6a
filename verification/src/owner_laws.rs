//! What holds of every sequence of strong clones and releases on one owner
//! cell.

use vstd::prelude::*;
use crate::fault::Fault;
use crate::owner_cell::ArenaModel;

verus! {

/// One call on a strong handle of a cell.
#[derive(Clone, Copy, Debug, PartialEq, Eq, Structural)]
pub enum CountOp {
    CloneStrong,
    ReleaseStrong,
}

/// The arena after the call `op` on the cell at `slot`, or the fault that the
/// call reports.
pub open spec fn step<T>(m: ArenaModel<T>, slot: int, op: CountOp) -> Result<ArenaModel<T>, Fault> {
    match op {
        CountOp::CloneStrong => Ok(m.clone_strong(slot)),
        CountOp::ReleaseStrong => if m.live(slot) {
            Ok(m.release_strong(slot))
        } else {
            Err(Fault::OverRelease)
        },
    }
}

/// The arena after the calls `ops` on the cell at `slot`, made in order up to
/// the first one that reports a fault.
pub open spec fn run<T>(m: ArenaModel<T>, slot: int, ops: Seq<CountOp>) -> Result<
    ArenaModel<T>,
    Fault,
>
    decreases ops.len(),
{
    if ops.len() == 0 {
        Ok(m)
    } else {
        match step(m, slot, ops[0]) {
            Ok(next) => run(next, slot, ops.skip(1)),
            Err(e) => Err(e),
        }
    }
}

/// `start` plus the clones in `ops` minus the releases in `ops`.
pub open spec fn balance(start: int, ops: Seq<CountOp>) -> int
    decreases ops.len(),
{
    if ops.len() == 0 {
        start
    } else {
        match ops[0] {
            CountOp::CloneStrong => balance(start + 1, ops.skip(1)),
            CountOp::ReleaseStrong => balance(start - 1, ops.skip(1)),
        }
    }
}

/// How often the call `op` occurs in `ops`.
pub open spec fn occurrences(ops: Seq<CountOp>, op: CountOp) -> nat
    decreases ops.len(),
{
    if ops.len() == 0 {
        0
    } else {
        occurrences(ops.skip(1), op) + if ops[0] == op {
            1nat
        } else {
            0nat
        }
    }
}

/// The balance stays at or above zero after every prefix of `ops`.
pub open spec fn never_negative(start: int, ops: Seq<CountOp>) -> bool {
    forall|k: int| 0 <= k <= ops.len() ==> balance(start, #[trigger] ops.take(k)) >= 0
}

/// Every clone in `ops`, up to the first release that finds no strong handle
/// left, is made while a strong handle exists: a clone needs a handle to
/// clone.
pub open spec fn clones_through_live_handles(start: int, ops: Seq<CountOp>) -> bool
    decreases ops.len(),
{
    if ops.len() == 0 {
        true
    } else {
        match ops[0] {
            CountOp::CloneStrong => start >= 1 && clones_through_live_handles(
                start + 1,
                ops.skip(1),
            ),
            CountOp::ReleaseStrong => start <= 0 || clones_through_live_handles(
                start - 1,
                ops.skip(1),
            ),
        }
    }
}

/// `n` times the call `op`.
pub open spec fn repeated(op: CountOp, n: nat) -> Seq<CountOp> {
    Seq::new(n, |i: int| op)
}

proof fn lemma_balance_of_prefix(start: int, ops: Seq<CountOp>, k: int)
    requires
        0 <= k < ops.len(),
    ensures
        balance(start, ops.take(k + 1)) == balance(
            match ops[0] {
                CountOp::CloneStrong => start + 1,
                CountOp::ReleaseStrong => start - 1,
            },
            ops.skip(1).take(k),
        ),
{
    assert(ops.take(k + 1).skip(1) =~= ops.skip(1).take(k));
    assert(ops.take(k + 1)[0] == ops[0]);
}

/// The balance is the start, plus the number of clones, minus the number of
/// releases.
pub proof fn lemma_balance_counts(start: int, ops: Seq<CountOp>)
    ensures
        balance(start, ops) == start + occurrences(ops, CountOp::CloneStrong) - occurrences(
            ops,
            CountOp::ReleaseStrong,
        ),
    decreases ops.len(),
{
    if ops.len() > 0 {
        match ops[0] {
            CountOp::CloneStrong => lemma_balance_counts(start + 1, ops.skip(1)),
            CountOp::ReleaseStrong => lemma_balance_counts(start - 1, ops.skip(1)),
        }
    }
}

/// A single step keeps the arena well formed, and touches neither the weak
/// counts nor any other cell.
pub proof fn lemma_step_keeps_rest<T>(m: ArenaModel<T>, slot: int, op: CountOp)
    requires
        m.wf(),
    ensures
        step(m, slot, op) matches Ok(next) ==> {
            &&& next.wf()
            &&& next.cells.len() == m.cells.len()
            &&& next.weak(slot) == m.weak(slot)
            &&& forall|other: int|
                m.has(other) && other != slot ==> #[trigger] next.cells[other] == m.cells[other]
        },
{
    if m.has(slot) {
        assert(m.cells[slot].wf());
    }
}

/// The count of strong handles after any sequence of clones and releases is
/// the count before it, plus the clones, minus the releases; and the sequence
/// runs to its end exactly if that balance never drops below zero on the way.
/// Where it would, the release that finds no strong handle left reports
/// `OverRelease`.
pub proof fn lemma_strong_count_is_balance<T>(m: ArenaModel<T>, slot: int, ops: Seq<CountOp>)
    requires
        m.wf(),
        clones_through_live_handles(m.strong(slot) as int, ops),
    ensures
        run(m, slot, ops) is Ok <==> never_negative(m.strong(slot) as int, ops),
        run(m, slot, ops) matches Ok(after) ==> {
            &&& after.wf()
            &&& after.strong(slot) == balance(m.strong(slot) as int, ops)
            &&& after.strong(slot) == m.strong(slot) + occurrences(ops, CountOp::CloneStrong)
                - occurrences(ops, CountOp::ReleaseStrong)
        },
        run(m, slot, ops) matches Err(fault) ==> fault == Fault::OverRelease,
    decreases ops.len(),
{
    let start = m.strong(slot) as int;
    lemma_balance_counts(start, ops);
    if ops.len() == 0 {
        assert forall|k: int| 0 <= k <= ops.len() implies balance(start, #[trigger] ops.take(k))
            >= 0 by {
            assert(ops.take(k) =~= ops);
        }
    } else {
        let rest = ops.skip(1);
        if m.has(slot) {
            assert(m.cells[slot].wf());
        }
        match step(m, slot, ops[0]) {
            Ok(next) => {
                lemma_step_keeps_rest(m, slot, ops[0]);
                let moved = next.strong(slot) as int;
                assert(moved == match ops[0] {
                    CountOp::CloneStrong => start + 1,
                    CountOp::ReleaseStrong => start - 1,
                });
                lemma_strong_count_is_balance(next, slot, rest);
                if never_negative(start, ops) {
                    assert forall|k: int| 0 <= k <= rest.len() implies balance(
                        moved,
                        #[trigger] rest.take(k),
                    ) >= 0 by {
                        lemma_balance_of_prefix(start, ops, k);
                        assert(balance(start, ops.take(k + 1)) >= 0);
                    }
                }
                if never_negative(moved, rest) {
                    assert forall|k: int| 0 <= k <= ops.len() implies balance(
                        start,
                        #[trigger] ops.take(k),
                    ) >= 0 by {
                        if k == 0 {
                            assert(ops.take(0).len() == 0);
                        } else {
                            lemma_balance_of_prefix(start, ops, k - 1);
                            assert(balance(moved, rest.take(k - 1)) >= 0);
                        }
                    }
                }
            },
            Err(_) => {
                let first = ops.take(1);
                assert(first[0] == CountOp::ReleaseStrong);
                assert(balance(start - 1, first.skip(1)) == start - 1);
                assert(balance(start, first) == -1);
            },
        }
    }
}

/// The balance stays at or above one after every prefix of `ops`: a strong
/// handle exists throughout.
pub open spec fn always_owned(start: int, ops: Seq<CountOp>) -> bool {
    forall|k: int| 0 <= k <= ops.len() ==> balance(start, #[trigger] ops.take(k)) >= 1
}

/// `n` clones followed by `releases` releases.
pub open spec fn clones_then_releases(n: nat, releases: nat) -> Seq<CountOp> {
    repeated(CountOp::CloneStrong, n) + repeated(CountOp::ReleaseStrong, releases)
}

/// While a strong handle remains, nothing is released: every call succeeds,
/// the payload stays, the hook waits and the log of fired hooks does not
/// grow. The weak handles are not touched.
pub proof fn lemma_nothing_fires_while_owned<T>(m: ArenaModel<T>, slot: int, ops: Seq<CountOp>)
    requires
        m.wf(),
        always_owned(m.strong(slot) as int, ops),
    ensures
        run(m, slot, ops) matches Ok(after) && {
            &&& after.wf()
            &&& after.strong(slot) == balance(m.strong(slot) as int, ops)
            &&& after.weak(slot) == m.weak(slot)
            &&& after.value(slot) == m.value(slot)
            &&& after.hook(slot) == m.hook(slot)
            &&& after.fired == m.fired
        },
    decreases ops.len(),
{
    let start = m.strong(slot) as int;
    assert(ops.take(0).len() == 0);
    assert(balance(start, ops.take(0)) >= 1);
    if ops.len() > 0 {
        let rest = ops.skip(1);
        assert(m.cells[slot].wf());
        let first = ops.take(1);
        assert(first[0] == ops[0]);
        assert(balance(start, first) >= 1);
        assert(first.skip(1).len() == 0);
        let moved = match ops[0] {
            CountOp::CloneStrong => start + 1,
            CountOp::ReleaseStrong => start - 1,
        };
        assert(balance(moved, first.skip(1)) == moved);
        assert(moved >= 1);
        let next = step(m, slot, ops[0])->Ok_0;
        lemma_step_keeps_rest(m, slot, ops[0]);
        assert forall|k: int| 0 <= k <= rest.len() implies balance(moved, #[trigger] rest.take(k))
            >= 1 by {
            lemma_balance_of_prefix(start, ops, k);
            assert(balance(start, ops.take(k + 1)) >= 1);
        }
        lemma_nothing_fires_while_owned(next, slot, rest);
    }
}

proof fn lemma_balance_of_repeated(start: int, op: CountOp, n: nat)
    ensures
        balance(start, repeated(op, n)) == match op {
            CountOp::CloneStrong => start + n,
            CountOp::ReleaseStrong => start - n,
        },
    decreases n,
{
    if n > 0 {
        assert(repeated(op, n).skip(1) =~= repeated(op, (n - 1) as nat));
        let moved = match op {
            CountOp::CloneStrong => start + 1,
            CountOp::ReleaseStrong => start - 1,
        };
        lemma_balance_of_repeated(moved, op, (n - 1) as nat);
    }
}

proof fn lemma_balance_of_concat(start: int, a: Seq<CountOp>, b: Seq<CountOp>)
    ensures
        balance(start, a + b) == balance(balance(start, a), b),
    decreases a.len(),
{
    if a.len() == 0 {
        assert(a + b =~= b);
    } else {
        assert((a + b).skip(1) =~= a.skip(1) + b);
        let moved = match a[0] {
            CountOp::CloneStrong => start + 1,
            CountOp::ReleaseStrong => start - 1,
        };
        lemma_balance_of_concat(moved, a.skip(1), b);
    }
}

proof fn lemma_run_of_concat<T>(m: ArenaModel<T>, slot: int, a: Seq<CountOp>, b: Seq<CountOp>)
    ensures
        run(m, slot, a + b) == match run(m, slot, a) {
            Ok(mid) => run(mid, slot, b),
            Err(e) => Err(e),
        },
    decreases a.len(),
{
    if a.len() == 0 {
        assert(a + b =~= b);
    } else {
        assert((a + b).skip(1) =~= a.skip(1) + b);
        assert((a + b)[0] == a[0]);
        match step(m, slot, a[0]) {
            Ok(next) => {
                lemma_run_of_concat(next, slot, a.skip(1), b);
            },
            Err(_) => {},
        }
    }
}

proof fn lemma_clones_then_releases_owned(start: int, n: nat, releases: nat)
    requires
        start >= 1,
        releases < start + n,
    ensures
        always_owned(start, clones_then_releases(n, releases)),
        balance(start, clones_then_releases(n, releases)) == start + n - releases,
{
    let ops = clones_then_releases(n, releases);
    assert forall|k: int| 0 <= k <= ops.len() implies balance(start, #[trigger] ops.take(k))
        >= 1 by {
        if k <= n {
            assert(ops.take(k) =~= repeated(CountOp::CloneStrong, k as nat));
            lemma_balance_of_repeated(start, CountOp::CloneStrong, k as nat);
        } else {
            let j = (k - n) as nat;
            assert(ops.take(k) =~= repeated(CountOp::CloneStrong, n) + repeated(
                CountOp::ReleaseStrong,
                j,
            ));
            lemma_balance_of_concat(
                start,
                repeated(CountOp::CloneStrong, n),
                repeated(CountOp::ReleaseStrong, j),
            );
            lemma_balance_of_repeated(start, CountOp::CloneStrong, n);
            lemma_balance_of_repeated(start + n, CountOp::ReleaseStrong, j);
        }
    }
    lemma_balance_of_concat(
        start,
        repeated(CountOp::CloneStrong, n),
        repeated(CountOp::ReleaseStrong, releases),
    );
    lemma_balance_of_repeated(start, CountOp::CloneStrong, n);
    lemma_balance_of_repeated(start + n, CountOp::ReleaseStrong, releases);
}

/// Nothing but the release of a last strong handle fires a hook or takes a
/// payload away: clones of either kind and the release of a weak handle leave
/// the log and the payload as they are, and the release of a strong handle
/// adds to the log exactly if it is the last handle of a cell with a hook.
pub proof fn lemma_only_last_release_fires<T>(m: ArenaModel<T>, slot: int)
    requires
        m.wf(),
    ensures
        m.clone_strong(slot).fired == m.fired,
        m.clone_weak(slot).fired == m.fired,
        m.release_weak(slot).fired == m.fired,
        m.clone_strong(slot).value(slot) == m.value(slot),
        m.clone_weak(slot).value(slot) == m.value(slot),
        m.release_weak(slot).value(slot) == m.value(slot),
        m.release_weak(slot).strong(slot) == m.strong(slot),
        m.release_strong(slot).fired == (match m.hook(slot) {
            Some(hook) => if m.strong(slot) == 1 {
                m.fired.push(hook)
            } else {
                m.fired
            },
            None => m.fired,
        }),
{
    if m.has(slot) {
        assert(m.cells[slot].wf());
    }
}

/// A release hook fires exactly once, on the release of the last strong
/// handle. After `n` clones of the first handle, the first `n` releases fire
/// nothing; the release after them empties the cell and adds the hook to the
/// log once; and a release attempted after that reports `OverRelease` and
/// changes nothing.
pub proof fn lemma_hook_fires_once_on_last_release<T>(
    m: ArenaModel<T>,
    slot: int,
    hook: u64,
    n: nat,
)
    requires
        m.wf(),
        m.strong(slot) == 1,
        m.hook(slot) == Some(hook),
    ensures
        run(m, slot, clones_then_releases(n, n)) matches Ok(before) && {
            &&& before.strong(slot) == 1
            &&& before.fired == m.fired
        },
        run(m, slot, clones_then_releases(n, n + 1)) matches Ok(after) && {
            &&& after.wf()
            &&& after.strong(slot) == 0
            &&& after.value(slot) is None
            &&& after.fired == m.fired.push(hook)
            &&& step(after, slot, CountOp::ReleaseStrong) == Err::<ArenaModel<T>, Fault>(
                Fault::OverRelease,
            )
            &&& after.release_strong(slot) == after
        },
{
    let quiet = clones_then_releases(n, n);
    lemma_clones_then_releases_owned(1, n, n);
    lemma_nothing_fires_while_owned(m, slot, quiet);
    let before = run(m, slot, quiet)->Ok_0;
    let last = repeated(CountOp::ReleaseStrong, 1);
    assert(clones_then_releases(n, n + 1) =~= quiet + last);
    lemma_run_of_concat(m, slot, quiet, last);
    assert(before.cells[slot].wf());
    assert(last.skip(1).len() == 0);
    let after = before.release_strong(slot);
    assert(run(before, slot, last) == run(after, slot, last.skip(1)));
    assert(after.cells[slot].wf());
}

/// Once the last strong handle is released, an upgrade fails: whatever the
/// sequence of clones and releases that brought the count to zero, the cell
/// is no longer live, its payload is gone, an upgrade changes nothing, and
/// the weak handles still count as before.
pub proof fn lemma_upgrade_fails_after_last_release<T>(
    m: ArenaModel<T>,
    slot: int,
    ops: Seq<CountOp>,
)
    requires
        m.wf(),
        clones_through_live_handles(m.strong(slot) as int, ops),
        never_negative(m.strong(slot) as int, ops),
        balance(m.strong(slot) as int, ops) == 0,
    ensures
        run(m, slot, ops) matches Ok(after) && {
            &&& !after.live(slot)
            &&& after.value(slot) is None
            &&& after.clone_strong(slot) == after
            &&& after.weak(slot) == m.weak(slot)
        },
{
    lemma_strong_count_is_balance(m, slot, ops);
    lemma_run_keeps_weak(m, slot, ops);
    let after = run(m, slot, ops)->Ok_0;
    if after.has(slot) {
        assert(after.cells[slot].wf());
    }
}

proof fn lemma_run_keeps_weak<T>(m: ArenaModel<T>, slot: int, ops: Seq<CountOp>)
    requires
        m.wf(),
    ensures
        run(m, slot, ops) matches Ok(after) ==> after.weak(slot) == m.weak(slot),
    decreases ops.len(),
{
    if ops.len() > 0 {
        lemma_step_keeps_rest(m, slot, ops[0]);
        match step(m, slot, ops[0]) {
            Ok(next) => {
                lemma_run_keeps_weak(next, slot, ops.skip(1));
            },
            Err(_) => {},
        }
    }
}

/// For a cell fresh from `wrap`, the count of strong handles after any
/// sequence of clones and releases that runs to its end is one, plus the
/// clones, minus the releases.
pub proof fn lemma_fresh_cell_counts<T>(
    m: ArenaModel<T>,
    value: T,
    hook: Option<u64>,
    ops: Seq<CountOp>,
)
    requires
        m.wf(),
        clones_through_live_handles(1, ops),
    ensures
        ({
            let slot = m.cells.len() as int;
            let wrapped = m.wrap(value, hook);
            &&& wrapped.strong(slot) == 1
            &&& run(wrapped, slot, ops) is Ok <==> never_negative(1, ops)
            &&& run(wrapped, slot, ops) matches Ok(after) ==> after.strong(slot) == 1
                + occurrences(ops, CountOp::CloneStrong) - occurrences(
                ops,
                CountOp::ReleaseStrong,
            )
            &&& run(wrapped, slot, ops) matches Err(fault) ==> fault == Fault::OverRelease
        }),
{
    let slot = m.cells.len() as int;
    let wrapped = m.wrap(value, hook);
    assert forall|i: int| 0 <= i < wrapped.cells.len() implies (#[trigger] wrapped.cells[i]).wf() by {
        if i < slot {
            assert(m.cells[i].wf());
        }
    }
    lemma_strong_count_is_balance(wrapped, slot, ops);
}

} // verus!
