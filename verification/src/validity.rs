//! Every command keeps the state valid, and none changes by how much a counter
//! is off.

use vstd::prelude::*;
use crate::model::{FolderView, Score, Strategy, SweepStatus, WorkStatus};
use crate::rows::{SweepView, WorkView};
use crate::state;
use crate::state::{StoreView, ROW_LIMIT};
use crate::tally;

verus! {

// --- looking up ------------------------------------------------------------------

/// A task that is found has the name, and it is the only one.
pub proof fn lemma_task_at(s: StoreView, name: Seq<char>)
    requires
        s.keyed(),
    ensures
        s.task_at(name) matches Some(k) ==> 0 <= k < s.tasks.len() && s.tasks[k].name == name,
        forall|k: int|
            0 <= k < s.tasks.len() && (#[trigger] s.tasks[k]).name == name ==> s.task_at(name)
                == Some(k),
{
    tally::lemma_top(s.tasks, state::by_name(name));
    assert forall|k: int|
        0 <= k < s.tasks.len() && (#[trigger] s.tasks[k]).name == name implies s.task_at(name)
        == Some(k) by {
        let rank = state::by_name(name);
        assert(rank(s.tasks[k]) is Some);
        let m = s.task_at(name)->0;
        assert(s.tasks[m].name == name);
        if m < k {
            assert(s.tasks[m].name != s.tasks[k].name);
        } else if k < m {
            assert(s.tasks[k].name != s.tasks[m].name);
        }
    }
}

/// A sweep that is found has the number, and it is the only one.
pub proof fn lemma_sweep_at(s: StoreView, task: Seq<char>, sweep: i64)
    requires
        s.keyed(),
    ensures
        s.sweep_at(task, sweep) matches Some(k) ==> 0 <= k < s.sweeps.len() && s.sweeps[k].task
            == task && s.sweeps[k].sweep == sweep,
        forall|k: int|
            0 <= k < s.sweeps.len() && (#[trigger] s.sweeps[k]).task == task && s.sweeps[k].sweep
                == sweep ==> s.sweep_at(task, sweep) == Some(k),
{
    let rank = state::by_number(task, sweep);
    tally::lemma_top(s.sweeps, rank);
    assert forall|k: int|
        0 <= k < s.sweeps.len() && (#[trigger] s.sweeps[k]).task == task && s.sweeps[k].sweep
            == sweep implies s.sweep_at(task, sweep) == Some(k) by {
        assert(rank(s.sweeps[k]) is Some);
        let m = s.sweep_at(task, sweep)->0;
        if m < k {
            assert(s.sweeps[m].task == task);
        } else if k < m {
            assert(s.sweeps[k].task == task);
        }
    }
}

/// The newest sweep of a task has the greatest number.
pub proof fn lemma_latest(s: StoreView, task: Seq<char>)
    requires
        s.keyed(),
    ensures
        s.latest(task) matches Some(k) ==> {
            &&& 0 <= k < s.sweeps.len()
            &&& s.sweeps[k].task == task
            &&& s.sweep_at(task, s.sweeps[k].sweep) == Some(k)
            &&& forall|i: int|
                0 <= i < s.sweeps.len() && (#[trigger] s.sweeps[i]).task == task
                    ==> s.sweeps[i].sweep <= s.sweeps[k].sweep
        },
        s.latest(task) is None <==> forall|i: int|
            0 <= i < s.sweeps.len() ==> (#[trigger] s.sweeps[i]).task != task,
{
    let rank = state::by_newest(task);
    tally::lemma_top(s.sweeps, rank);
    match s.latest(task) {
        Some(k) => {
            lemma_sweep_at(s, task, s.sweeps[k].sweep);
            assert forall|i: int|
                0 <= i < s.sweeps.len() && (#[trigger] s.sweeps[i]).task
                    == task implies s.sweeps[i].sweep <= s.sweeps[k].sweep by {
                assert(rank(s.sweeps[i]) is Some);
            }
        },
        None => {
            assert forall|i: int| 0 <= i < s.sweeps.len() implies (#[trigger] s.sweeps[i]).task
                != task by {
                assert(rank(s.sweeps[i]) is None);
            }
        },
    }
}

/// A task has an active sweep exactly if its newest one is active.
pub proof fn lemma_active(s: StoreView, task: Seq<char>)
    requires
        s.keyed(),
        s.ordered(),
    ensures
        match s.latest(task) {
            None => s.active(task) is None,
            Some(k) => if s.sweeps[k].status == SweepStatus::Active {
                s.active(task) == Some(k)
            } else {
                s.active(task) is None
            },
        },
{
    reveal(StoreView::single);
    lemma_latest(s, task);
    lemma_task_at(s, task);
    let rank = state::by_newest_active(task);
    tally::lemma_top(s.sweeps, rank);
    match s.active(task) {
        Some(m) => {
            assert(rank(s.sweeps[m]) is Some);
            let k = s.latest(task)->0;
            assert(s.sweeps[m].sweep <= s.sweeps[k].sweep);
            lemma_sweep_at(s, task, s.sweeps[k].sweep);
            assert(s.sweeps[m].sweep == s.sweeps[k].sweep);
        },
        None => {
            if let Some(k) = s.latest(task) {
                assert(rank(s.sweeps[k]) is None);
            }
        },
    }
}

/// The sweep of a folder on a board is found.
pub proof fn lemma_placed(s: StoreView, i: int)
    requires
        s.wf(),
        0 <= i < s.work.len(),
    ensures
        s.sweep_at(s.work[i].task, s.work[i].sweep) matches Some(k) && 0 <= k < s.sweeps.len()
            && s.sweeps[k].task == s.work[i].task && s.sweeps[k].sweep == s.work[i].sweep,
{
    lemma_sweep_at(s, s.work[i].task, s.work[i].sweep);
    assert(s.placed(s.work[i]));
}

/// No counter is so far off that arithmetic on it would overflow.
pub proof fn lemma_counters(s: StoreView, k: int)
    requires
        s.countable(),
        0 <= k < s.sweeps.len(),
    ensures
        forall|status: WorkStatus|
            -ROW_LIMIT <= #[trigger] s.sweeps[k].counter(status) <= 2 * ROW_LIMIT,
        -ROW_LIMIT <= s.sweeps[k].total <= 2 * ROW_LIMIT,
{
    let row = s.sweeps[k];
    assert(s.near(row));
    assert forall|status: WorkStatus|
        -ROW_LIMIT <= #[trigger] s.sweeps[k].counter(status) <= 2 * ROW_LIMIT by {
        tally::lemma_count_bound(s.work, state::of_status(row.task, row.sweep, status));
        assert(-ROW_LIMIT <= s.drift(row, status) <= ROW_LIMIT);
    }
    tally::lemma_count_bound(s.work, state::of_sweep(row.task, row.sweep));
}

// --- commands that change rows in place --------------------------------------------

/// The rows of `b` are those of `a`, with the same keys, in the same places.
pub open spec fn same_keys(a: StoreView, b: StoreView) -> bool {
    &&& a.folders == b.folders
    &&& a.tasks.len() == b.tasks.len()
    &&& a.sweeps.len() == b.sweeps.len()
    &&& a.work.len() == b.work.len()
    &&& forall|i: int|
        #![trigger a.tasks[i]]
        #![trigger b.tasks[i]]
        0 <= i < a.tasks.len() ==> a.tasks[i].name == b.tasks[i].name && a.tasks[i].current_sweep
            == b.tasks[i].current_sweep
    &&& forall|i: int|
        #![trigger a.sweeps[i]]
        #![trigger b.sweeps[i]]
        0 <= i < a.sweeps.len() ==> a.sweeps[i].task == b.sweeps[i].task && a.sweeps[i].sweep
            == b.sweeps[i].sweep && (b.sweeps[i].status == SweepStatus::Active ==> a.sweeps[i].status
            == SweepStatus::Active)
    &&& forall|i: int|
        #![trigger a.work[i]]
        #![trigger b.work[i]]
        0 <= i < a.work.len() ==> a.work[i].task == b.work[i].task && a.work[i].sweep
            == b.work[i].sweep && a.work[i].path == b.work[i].path
}

/// The counters of the sweep in place `i` are off by the same in `a` and `b`.
pub open spec fn same_drift_at(a: StoreView, b: StoreView, i: int) -> bool {
    &&& a.drift_total(a.sweeps[i]) == b.drift_total(b.sweeps[i])
    &&& forall|status: WorkStatus| #[trigger]
        a.drift(a.sweeps[i], status) == b.drift(b.sweeps[i], status)
}

/// The counters of every sweep are off by the same in `a` and `b`.
pub open spec fn same_drift(a: StoreView, b: StoreView) -> bool {
    &&& a.sweeps.len() == b.sweeps.len()
    &&& forall|i: int| #![trigger a.sweeps[i]] #![trigger b.sweeps[i]]
        0 <= i < a.sweeps.len() ==> same_drift_at(a, b, i)
}

/// A change in place keeps keys distinct.
pub proof fn lemma_keys_kept(a: StoreView, b: StoreView)
    requires
        a.keyed(),
        same_keys(a, b),
    ensures
        b.keyed(),
{
    assert forall|i: int, j: int| 0 <= i < j < b.tasks.len() implies #[trigger] b.tasks[i].name
        != #[trigger] b.tasks[j].name by {
        assert(a.tasks[i].name != a.tasks[j].name);
    }
    assert forall|i: int, j: int|
        #![trigger b.sweeps[i], b.sweeps[j]]
        0 <= i < j < b.sweeps.len() implies !(b.sweeps[i].task == b.sweeps[j].task
        && b.sweeps[i].sweep == b.sweeps[j].sweep) by {
        assert(a.sweeps[i].task == b.sweeps[i].task);
        assert(a.sweeps[j].task == b.sweeps[j].task);
    }
    assert forall|i: int, j: int|
        #![trigger b.work[i], b.work[j]]
        0 <= i < j < b.work.len() implies !(b.work[i].task == b.work[j].task && b.work[i].sweep
        == b.work[j].sweep && b.work[i].path == b.work[j].path) by {
        assert(a.work[i].task == b.work[i].task);
        assert(a.work[j].task == b.work[j].task);
    }
}

/// A change in place keeps keys distinct and references intact.
pub proof fn lemma_same_keys(a: StoreView, b: StoreView)
    requires
        a.keyed(),
        a.linked(),
        same_keys(a, b),
    ensures
        b.keyed(),
        b.linked(),
{
    lemma_keys_kept(a, b);
    assert forall|i: int| 0 <= i < b.work.len() implies b.placed(#[trigger] b.work[i]) by {
        assert(a.placed(a.work[i]));
        let k = choose|k: int|
            0 <= k < a.sweeps.len() && (#[trigger] a.sweeps[k]).task == a.work[i].task
                && a.sweeps[k].sweep == a.work[i].sweep;
        assert(b.sweeps[k].task == b.work[i].task);
    }
}

/// A change in place leaves the order of sweeps as it is.
pub proof fn lemma_order_kept(a: StoreView, b: StoreView)
    requires
        a.ordered(),
        same_keys(a, b),
    ensures
        b.ordered(),
{
    reveal(StoreView::single);
    assert forall|i: int| 0 <= i < b.sweeps.len() implies b.owned(#[trigger] b.sweeps[i]) by {
        assert(a.owned(a.sweeps[i]));
        assert forall|k: int|
            0 <= k < b.tasks.len() && (#[trigger] b.tasks[k]).name
                == b.sweeps[i].task implies b.sweeps[i].sweep <= b.tasks[k].current_sweep by {
            assert(a.tasks[k].name == b.tasks[k].name);
        }
    }
    assert forall|i: int, j: int|
        #![trigger b.sweeps[i], b.sweeps[j]]
        0 <= i < b.sweeps.len() && 0 <= j < b.sweeps.len() && b.sweeps[i].task == b.sweeps[j].task
            && b.sweeps[i].status == SweepStatus::Active implies b.sweeps[j].sweep
        <= b.sweeps[i].sweep by {
        assert(a.sweeps[i].task == a.sweeps[j].task);
    }
}

/// A change in place that moves the counters with the rows keeps the state valid.
pub proof fn lemma_in_place(a: StoreView, b: StoreView)
    requires
        a.wf(),
        same_keys(a, b),
        same_drift(a, b),
    ensures
        b.wf(),
{
    lemma_same_keys(a, b);
    assert forall|i: int| 0 <= i < b.sweeps.len() implies b.near(#[trigger] b.sweeps[i]) by {
        assert(a.near(a.sweeps[i]));
        assert(same_drift_at(a, b, i));
        assert forall|status: WorkStatus|
            -ROW_LIMIT <= #[trigger] b.drift(b.sweeps[i], status) <= ROW_LIMIT by {
            assert(a.drift(a.sweeps[i], status) == b.drift(b.sweeps[i], status));
        }
    }
}

/// Rows of other sweeps do not count.
pub proof fn lemma_elsewhere(a: StoreView, b: StoreView, task: Seq<char>, sweep: i64)
    requires
        a.work.len() == b.work.len(),
        forall|i: int|
            #![trigger a.work[i]]
            #![trigger b.work[i]]
            0 <= i < a.work.len() ==> a.work[i] == b.work[i] || !(a.work[i].belongs(task, sweep)
                || b.work[i].belongs(task, sweep)),
    ensures
        a.live_total(task, sweep) == b.live_total(task, sweep),
        forall|status: WorkStatus| #[trigger]
            a.live(task, sweep, status) == b.live(task, sweep, status),
{
    tally::lemma_count_same(
        a.work,
        state::of_sweep(task, sweep),
        b.work,
        state::of_sweep(task, sweep),
    );
    assert forall|status: WorkStatus| #[trigger]
        a.live(task, sweep, status) == b.live(task, sweep, status) by {
        tally::lemma_count_same(
            a.work,
            state::of_status(task, sweep, status),
            b.work,
            state::of_status(task, sweep, status),
        );
    }
}

/// `b` is `a` after some leases of a sweep were returned: exactly the rows of
/// the sweep whose lease ran out became pending.
proof fn lemma_returned(a: StoreView, b: StoreView, task: Seq<char>, sweep: i64, now: i64)
    requires
        a.work.len() == b.work.len(),
        forall|i: int|
            #![trigger a.work[i]]
            #![trigger b.work[i]]
            0 <= i < a.work.len() && a.work[i].belongs(task, sweep) ==> b.work[i] == if a.work[i].expired(
                now,
            ) {
                a.work[i].returned()
            } else {
                a.work[i]
            },
        forall|i: int|
            #![trigger a.work[i]]
            #![trigger b.work[i]]
            0 <= i < a.work.len() && !a.work[i].belongs(task, sweep) ==> !b.work[i].belongs(
                task,
                sweep,
            ),
    ensures
        b.live(task, sweep, WorkStatus::Pending) == a.live(task, sweep, WorkStatus::Pending)
            + tally::count(a.work, state::due(task, sweep, now)),
        b.live(task, sweep, WorkStatus::Leased) == a.live(task, sweep, WorkStatus::Leased)
            - tally::count(a.work, state::due(task, sweep, now)),
        b.live(task, sweep, WorkStatus::Done) == a.live(task, sweep, WorkStatus::Done),
        b.live(task, sweep, WorkStatus::Skipped) == a.live(task, sweep, WorkStatus::Skipped),
        b.live_total(task, sweep) == a.live_total(task, sweep),
{
    let due = state::due(task, sweep, now);
    let pending = state::of_status(task, sweep, WorkStatus::Pending);
    let leased = state::of_status(task, sweep, WorkStatus::Leased);
    let held = |w: WorkView| leased(w) && !w.expired(now);
    tally::lemma_count_split(a.work, pending, due, b.work, pending);
    tally::lemma_count_split(a.work, held, due, a.work, leased);
    tally::lemma_count_same(a.work, held, b.work, leased);
    tally::lemma_count_same(
        a.work,
        state::of_status(task, sweep, WorkStatus::Done),
        b.work,
        state::of_status(task, sweep, WorkStatus::Done),
    );
    tally::lemma_count_same(
        a.work,
        state::of_status(task, sweep, WorkStatus::Skipped),
        b.work,
        state::of_status(task, sweep, WorkStatus::Skipped),
    );
    tally::lemma_count_same(
        a.work,
        state::of_sweep(task, sweep),
        b.work,
        state::of_sweep(task, sweep),
    );
}

/// Returning a sweep's expired leases keeps the state valid.
pub proof fn lemma_reclaimed(s: StoreView, task: Seq<char>, sweep: i64, now: i64)
    requires
        s.wf(),
        s.sweep_at(task, sweep) is Some,
    ensures
        s.reclaimed(task, sweep, now).wf(),
        same_keys(s, s.reclaimed(task, sweep, now)),
        same_drift(s, s.reclaimed(task, sweep, now)),
        s.reclaimed(task, sweep, now).sweep_at(task, sweep) == s.sweep_at(task, sweep),
{
    let b = s.reclaimed(task, sweep, now);
    let k = s.sweep_at(task, sweep)->0;
    lemma_sweep_at(s, task, sweep);
    assert forall|i: int|
        #![trigger s.sweeps[i]]
        #![trigger b.sweeps[i]]
        0 <= i < s.sweeps.len() implies same_drift_at(s, b, i) by {
        if i == k {
            lemma_returned(s, b, task, sweep, now);
        } else {
            let row = s.sweeps[i];
            assert(row == b.sweeps[i]);
            assert(row.task != task || row.sweep != sweep);
            lemma_elsewhere(s, b, row.task, row.sweep);
        }
    }
    lemma_in_place(s, b);
    lemma_sweep_at(b, task, sweep);
    assert(b.sweeps[k].task == task);
}

/// Changing the status of one row along with the counters keeps the state valid.
pub proof fn lemma_row_moved(a: StoreView, b: StoreView, i: int, k: int)
    requires
        a.wf(),
        0 <= i < a.work.len(),
        0 <= k < a.sweeps.len(),
        a.sweeps[k].task == a.work[i].task,
        a.sweeps[k].sweep == a.work[i].sweep,
        b.folders == a.folders,
        b.tasks == a.tasks,
        b.work == a.work.update(i, b.work[i]),
        b.work[i].task == a.work[i].task,
        b.work[i].sweep == a.work[i].sweep,
        b.work[i].path == a.work[i].path,
        b.work[i].status != a.work[i].status,
        b.sweeps == a.sweeps.update(
            k,
            a.sweeps[k].moved(a.work[i].status, b.work[i].status, 1),
        ),
    ensures
        b.wf(),
        same_keys(a, b),
        same_drift(a, b),
{
    let task = a.work[i].task;
    let sweep = a.work[i].sweep;
    let x = b.work[i];
    assert forall|j: int|
        #![trigger a.sweeps[j]]
        #![trigger b.sweeps[j]]
        0 <= j < a.sweeps.len() implies same_drift_at(a, b, j) by {
        if j == k {
            assert forall|status: WorkStatus| #[trigger]
                a.drift(a.sweeps[j], status) == b.drift(b.sweeps[j], status) by {
                tally::lemma_count_update(a.work, state::of_status(task, sweep, status), i, x);
            }
            tally::lemma_count_update(a.work, state::of_sweep(task, sweep), i, x);
        } else {
            let row = a.sweeps[j];
            assert(row == b.sweeps[j]);
            if j < k {
                assert(!(a.sweeps[j].task == a.sweeps[k].task && a.sweeps[j].sweep
                    == a.sweeps[k].sweep));
            } else {
                assert(!(a.sweeps[k].task == a.sweeps[j].task && a.sweeps[k].sweep
                    == a.sweeps[j].sweep));
            }
            lemma_elsewhere(a, b, row.task, row.sweep);
        }
    }
    lemma_in_place(a, b);
}

/// A claim keeps the state valid.
pub proof fn lemma_claim(
    s: StoreView,
    task: Seq<char>,
    sweep: i64,
    agent: Option<Seq<char>>,
    ttl: i64,
    now: i64,
)
    requires
        s.wf(),
        s.sweep_at(task, sweep) is Some,
    ensures
        s.claim(task, sweep, agent, ttl, now).0.wf(),
        same_keys(s, s.claim(task, sweep, agent, ttl, now).0),
        same_drift(s, s.claim(task, sweep, agent, ttl, now).0),
        s.claim(task, sweep, agent, ttl, now).0.sweep_at(task, sweep) == s.sweep_at(task, sweep),
{
    lemma_reclaimed(s, task, sweep, now);
    let a = s.reclaimed(task, sweep, now);
    let k = a.sweep_at(task, sweep)->0;
    let b = s.claim(task, sweep, agent, ttl, now).0;
    let rank = state::by_score(task, sweep);
    tally::lemma_top(a.work, rank);
    lemma_sweep_at(a, task, sweep);
    if let Some(i) = tally::top(a.work, rank) {
        assert(rank(a.work[i]) is Some);
        assert(b.work[i].status == WorkStatus::Leased);
        lemma_row_moved(a, b, i, k);
        lemma_drift_chain(s, a, b);
        assert(b.sweeps[k].task == task);
        lemma_sweep_at(b, task, sweep);
    }
}

/// Counters that are off by the same through two steps.
pub proof fn lemma_drift_chain(a: StoreView, b: StoreView, c: StoreView)
    requires
        same_drift(a, b),
        same_drift(b, c),
    ensures
        same_drift(a, c),
{
    assert forall|i: int|
        #![trigger a.sweeps[i]]
        #![trigger c.sweeps[i]]
        0 <= i < a.sweeps.len() implies same_drift_at(a, c, i) by {
        assert(same_drift_at(a, b, i));
        assert(same_drift_at(b, c, i)) by {
            assert(b.sweeps[i] == b.sweeps[i]);
        }
        assert forall|status: WorkStatus| #[trigger]
            a.drift(a.sweeps[i], status) == c.drift(c.sweeps[i], status) by {
            assert(a.drift(a.sweeps[i], status) == b.drift(b.sweeps[i], status));
        }
    }
}

/// Closing a sweep keeps the state valid.
pub proof fn lemma_closed(s: StoreView, task: Seq<char>, sweep: i64, now: i64)
    requires
        s.wf(),
    ensures
        s.closed(task, sweep, now).wf(),
        same_keys(s, s.closed(task, sweep, now)),
        same_drift(s, s.closed(task, sweep, now)),
        s.closed(task, sweep, now).sweep_at(task, sweep) == s.sweep_at(task, sweep),
{
    let b = s.closed(task, sweep, now);
    lemma_sweep_at(s, task, sweep);
    lemma_drift_of_board(s, b);
    lemma_in_place(s, b);
    lemma_sweep_at(b, task, sweep);
    if let Some(k) = s.sweep_at(task, sweep) {
        assert(b.sweeps[k].task == task);
    }
}

/// With the board and the counters as they were, the counters are off by the same.
pub proof fn lemma_drift_of_board(a: StoreView, b: StoreView)
    requires
        a.work == b.work,
        a.sweeps.len() == b.sweeps.len(),
        forall|i: int|
            #![trigger a.sweeps[i]]
            #![trigger b.sweeps[i]]
            0 <= i < a.sweeps.len() ==> a.sweeps[i].task == b.sweeps[i].task && a.sweeps[i].sweep
                == b.sweeps[i].sweep && a.sweeps[i].total == b.sweeps[i].total
                && a.sweeps[i].pending == b.sweeps[i].pending && a.sweeps[i].leased
                == b.sweeps[i].leased && a.sweeps[i].done == b.sweeps[i].done
                && a.sweeps[i].skipped == b.sweeps[i].skipped,
    ensures
        same_drift(a, b),
{
    assert forall|i: int|
        #![trigger a.sweeps[i]]
        #![trigger b.sweeps[i]]
        0 <= i < a.sweeps.len() implies same_drift_at(a, b, i) by {
        assert forall|status: WorkStatus| #[trigger]
            a.drift(a.sweeps[i], status) == b.drift(b.sweeps[i], status) by {}
    }
}

/// Covering an outstanding row keeps the state valid.
pub proof fn lemma_covered(
    s: StoreView,
    i: int,
    agent: Option<Seq<char>>,
    status: WorkStatus,
    reason: Option<Seq<char>>,
    found: Option<i64>,
    now: i64,
)
    requires
        s.wf(),
        0 <= i < s.work.len(),
        s.work[i].status.outstanding(),
        status.terminal(),
    ensures
        s.covered(i, agent, status, reason, found, now).wf(),
        same_keys(s, s.covered(i, agent, status, reason, found, now)),
        same_drift(s, s.covered(i, agent, status, reason, found, now)),
        s.covered(i, agent, status, reason, found, now).sweep_at(s.work[i].task, s.work[i].sweep)
            == s.sweep_at(s.work[i].task, s.work[i].sweep),
{
    let b = s.covered(i, agent, status, reason, found, now);
    let task = s.work[i].task;
    let sweep = s.work[i].sweep;
    lemma_placed(s, i);
    lemma_sweep_at(s, task, sweep);
    let k = s.sweep_at(task, sweep)->0;
    lemma_row_moved(s, b, i, k);
    lemma_sweep_at(b, task, sweep);
    assert(b.sweeps[k].task == task);
}

/// Returning every expired lease keeps the state valid.
pub proof fn lemma_swept(s: StoreView, now: i64)
    requires
        s.wf(),
    ensures
        s.swept(now).wf(),
        same_keys(s, s.swept(now)),
        same_drift(s, s.swept(now)),
{
    let b = s.swept(now);
    assert forall|i: int|
        #![trigger s.sweeps[i]]
        #![trigger b.sweeps[i]]
        0 <= i < s.sweeps.len() implies same_drift_at(s, b, i) by {
        lemma_swept_drift(s, now, i);
    }
    lemma_in_place(s, b);
}

/// Returning every expired lease leaves each counter off by as much as it was.
pub proof fn lemma_swept_drift(s: StoreView, now: i64, i: int)
    requires
        0 <= i < s.sweeps.len(),
    ensures
        same_drift_at(s, s.swept(now), i),
{
    lemma_returned(s, s.swept(now), s.sweeps[i].task, s.sweeps[i].sweep, now);
}

/// Computing the counters from the board keeps the state valid and makes them right.
pub proof fn lemma_reconciled(s: StoreView)
    ensures
        s.wf() ==> s.reconciled().wf(),
        s.keyed() ==> s.reconciled().keyed(),
        same_keys(s, s.reconciled()),
        s.reconciled().consistent(),
        s.work.len() <= ROW_LIMIT ==> s.reconciled().countable(),
{
    let b = s.reconciled();
    assert(b.work == s.work);
    assert forall|i: int| #![trigger b.sweeps[i]] 0 <= i < b.sweeps.len() implies b.drift_total(
        b.sweeps[i],
    ) == 0 && (forall|status: WorkStatus| #[trigger] b.drift(b.sweeps[i], status) == 0) by {
        assert forall|status: WorkStatus| #[trigger] b.drift(b.sweeps[i], status) == 0 by {
            match status {
                WorkStatus::Pending => {},
                WorkStatus::Leased => {},
                WorkStatus::Done => {},
                WorkStatus::Skipped => {},
            }
        }
    }
    if s.keyed() {
        lemma_keys_kept(s, b);
    }
    if s.wf() {
        lemma_same_keys(s, b);
    }
    assert forall|i: int| 0 <= i < b.sweeps.len() implies b.near(#[trigger] b.sweeps[i]) by {
        assert(b.drift_total(b.sweeps[i]) == 0);
    }
}

/// Giving a task another strategy keeps the state valid.
pub proof fn lemma_with_strategy(s: StoreView, task: Seq<char>, strategy: Strategy)
    requires
        s.wf(),
    ensures
        s.with_strategy(task, strategy).wf(),
        same_keys(s, s.with_strategy(task, strategy)),
        same_drift(s, s.with_strategy(task, strategy)),
        s.with_strategy(task, strategy).task_at(task) == s.task_at(task),
{
    let b = s.with_strategy(task, strategy);
    lemma_task_at(s, task);
    lemma_drift_of_board(s, b);
    lemma_in_place(s, b);
    lemma_task_at(b, task);
    if let Some(k) = s.task_at(task) {
        assert(b.tasks[k].name == task);
    }
}

/// A change in place leaves a task's newest sweep where it is.
pub proof fn lemma_latest_kept(a: StoreView, b: StoreView, task: Seq<char>)
    requires
        a.wf(),
        b.wf(),
        same_keys(a, b),
    ensures
        b.latest(task) == a.latest(task),
{
    lemma_latest(a, task);
    lemma_latest(b, task);
    match a.latest(task) {
        Some(k) => {
            assert(b.sweeps[k].task == task);
            let m = b.latest(task)->0;
            assert(a.sweeps[m].task == task);
            assert(a.sweeps[m].sweep <= a.sweeps[k].sweep);
            assert(b.sweeps[k].sweep <= b.sweeps[m].sweep);
            assert(a.sweeps[m].sweep == a.sweeps[k].sweep);
            lemma_sweep_at(a, task, a.sweeps[k].sweep);
        },
        None => {
            if let Some(m) = b.latest(task) {
                assert(a.sweeps[m].task == task);
            }
        },
    }
}

/// A task has a sweep with the number.
pub open spec fn has_number(s: StoreView, task: Seq<char>, n: i64) -> bool {
    exists|k: int|
        0 <= k < s.sweeps.len() && (#[trigger] s.sweeps[k]).task == task && s.sweeps[k].sweep == n
}

/// A task with the same sweep numbers has the same newest one.
pub proof fn lemma_newest_same(a: StoreView, b: StoreView, task: Seq<char>)
    requires
        a.keyed(),
        b.keyed(),
        forall|n: i64| #[trigger] has_number(a, task, n) <==> has_number(b, task, n),
    ensures
        b.newest(task) == a.newest(task),
{
    lemma_latest(a, task);
    lemma_latest(b, task);
    if let Some(k) = a.latest(task) {
        assert(has_number(a, task, a.sweeps[k].sweep));
    }
    if let Some(k) = b.latest(task) {
        assert(has_number(b, task, b.sweeps[k].sweep));
        assert(has_number(a, task, b.sweeps[k].sweep));
    }
}

// --- commands that add and remove rows -----------------------------------------------

/// Registering a task keeps the state valid.
pub proof fn lemma_ensured(
    s: StoreView,
    task: Seq<char>,
    strategy: Strategy,
    seed: u64,
    now: i64,
)
    requires
        s.wf(),
    ensures
        s.ensured(task, strategy, seed, now).wf(),
        s.ordered() ==> s.ensured(task, strategy, seed, now).ordered(),
        same_drift(s, s.ensured(task, strategy, seed, now)),
        s.ensured(task, strategy, seed, now).task_at(task) is Some,
        s.ensured(task, strategy, seed, now).task_at(task) == if s.task_at(task) is Some {
            s.task_at(task)
        } else {
            Some(s.tasks.len() as int)
        },
{
    reveal(StoreView::single);
    let b = s.ensured(task, strategy, seed, now);
    lemma_task_at(s, task);
    lemma_latest(s, task);
    lemma_drift_of_board(s, b);
    if s.task_at(task) is None {
        assert(b.keyed()) by {
            assert forall|i: int, j: int|
                0 <= i < j < b.tasks.len() implies #[trigger] b.tasks[i].name
                != #[trigger] b.tasks[j].name by {
                assert(b.tasks[i] == s.tasks[i]);
                if j < s.tasks.len() {
                    assert(b.tasks[j] == s.tasks[j]);
                    assert(s.tasks[i].name != s.tasks[j].name);
                } else {
                    assert(s.tasks[i].name != task);
                }
            }
        }
        if s.ordered() {
            assert forall|i: int| 0 <= i < b.sweeps.len() implies b.owned(
                #[trigger] b.sweeps[i],
            ) by {
                assert(s.owned(s.sweeps[i]));
                assert forall|k: int|
                    0 <= k < b.tasks.len() && (#[trigger] b.tasks[k]).name
                        == b.sweeps[i].task implies b.sweeps[i].sweep
                    <= b.tasks[k].current_sweep by {
                    if k < s.tasks.len() {
                        assert(b.tasks[k] == s.tasks[k]);
                    } else {
                        assert(s.sweeps[i].task == task);
                    }
                }
            }
        }
        assert forall|i: int| 0 <= i < b.work.len() implies b.placed(#[trigger] b.work[i]) by {
            assert(s.placed(s.work[i]));
        }
        assert forall|i: int| 0 <= i < b.sweeps.len() implies b.near(#[trigger] b.sweeps[i]) by {
            assert(s.near(s.sweeps[i]));
            assert forall|status: WorkStatus|
                -ROW_LIMIT <= #[trigger] b.drift(b.sweeps[i], status) <= ROW_LIMIT by {
                assert(s.drift(s.sweeps[i], status) == b.drift(b.sweeps[i], status));
            }
        }
        lemma_task_at(b, task);
        assert(b.tasks[s.tasks.len() as int].name == task);
    }
}

/// Opening a sweep keeps the state valid: the new sweep's counters are right, and
/// those of the others are off by what they were. Where sweeps are in order they
/// stay so, and the new one is the task's newest.
pub proof fn lemma_opened(s: StoreView, task: Seq<char>, now: i64, scores: Seq<Score>)
    requires
        s.wf(),
        s.refusal(task) is None,
        s.has_room(task, now),
    ensures
        s.opened(task, now, scores).wf(),
        s.opened(task, now, scores).sweep_at(task, s.next_number(task)) == Some(
            s.sweeps.len() as int,
        ),
        s.ordered() ==> s.opened(task, now, scores).ordered() && s.opened(
            task,
            now,
            scores,
        ).latest(task) == Some(s.sweeps.len() as int),
        s.next_number(task) == s.tasks[s.task_at(task)->0].current_sweep + 1,
        forall|i: int|
            #![trigger s.sweeps[i]]
            0 <= i < s.sweeps.len() ==> same_drift_at(s, s.opened(task, now, scores), i),
        ({
            let b = s.opened(task, now, scores);
            let row = b.sweeps[s.sweeps.len() as int];
            b.drift_total(row) == 0 && forall|status: WorkStatus| #[trigger]
                b.drift(row, status) == 0
        }),
{
    reveal(StoreView::single);
    let b = s.opened(task, now, scores);
    let k = s.task_at(task)->0;
    let n = s.next_number(task);
    let m = s.sweeps.len() as int;
    let board = s.board(task, scores);
    lemma_task_at(s, task);
    lemma_latest(s, task);
    assert(s.current(task) == s.tasks[k].current_sweep);
    assert forall|i: int| 0 <= i < m && (#[trigger] s.sweeps[i]).task == task implies s.sweeps[i].sweep
        != n && s.sweeps[i].status != SweepStatus::Active by {
        let rank = state::by_newest_active(task);
        tally::lemma_top(s.sweeps, rank);
        assert(rank(s.sweeps[i]) is None);
    }
    assert forall|i: int| 0 <= i < s.work.len() implies !(#[trigger] s.work[i]).belongs(task, n) by {
        assert(s.placed(s.work[i]));
    }
    assert(b.keyed()) by {
        assert forall|i: int, j: int|
            0 <= i < j < b.tasks.len() implies #[trigger] b.tasks[i].name
            != #[trigger] b.tasks[j].name by {
            assert(s.tasks[i].name != s.tasks[j].name);
        }
        assert forall|i: int, j: int|
            #![trigger b.sweeps[i], b.sweeps[j]]
            0 <= i < j < b.sweeps.len() implies !(b.sweeps[i].task == b.sweeps[j].task
            && b.sweeps[i].sweep == b.sweeps[j].sweep) by {
            assert(b.sweeps[i] == s.sweeps[i]);
            if j < m {
                assert(b.sweeps[j] == s.sweeps[j]);
            }
        }
        assert forall|i: int, j: int|
            #![trigger b.work[i], b.work[j]]
            0 <= i < j < b.work.len() implies !(b.work[i].task == b.work[j].task && b.work[i].sweep
            == b.work[j].sweep && b.work[i].path == b.work[j].path) by {
            let w = s.work.len() as int;
            if j < w {
                assert(b.work[i] == s.work[i] && b.work[j] == s.work[j]);
            } else if i < w {
                assert(b.work[i] == s.work[i] && b.work[j] == board[j - w]);
            } else {
                assert(b.work[i] == board[i - w] && b.work[j] == board[j - w]);
                assert(s.folders[i - w].stat.path != s.folders[j - w].stat.path);
            }
        }
    }
    if s.ordered() {
        assert forall|i: int| 0 <= i < m && (#[trigger] s.sweeps[i]).task
            == task implies s.sweeps[i].sweep < n by {
            assert(s.owned(s.sweeps[i]));
        }
        assert forall|i: int| 0 <= i < b.sweeps.len() implies b.owned(#[trigger] b.sweeps[i]) by {
            if i < m {
                assert(s.owned(s.sweeps[i]));
                assert(b.sweeps[i] == s.sweeps[i]);
            }
            assert forall|q: int|
                0 <= q < b.tasks.len() && (#[trigger] b.tasks[q]).name
                    == b.sweeps[i].task implies b.sweeps[i].sweep <= b.tasks[q].current_sweep by {
                assert(b.tasks[q].name == s.tasks[q].name);
            }
        }
        assert forall|i: int, j: int|
            #![trigger b.sweeps[i], b.sweeps[j]]
            0 <= i < b.sweeps.len() && 0 <= j < b.sweeps.len() && b.sweeps[i].task
                == b.sweeps[j].task && b.sweeps[i].status
                == SweepStatus::Active implies b.sweeps[j].sweep <= b.sweeps[i].sweep by {
            if i < m {
                assert(b.sweeps[i] == s.sweeps[i]);
            }
            if j < m {
                assert(b.sweeps[j] == s.sweeps[j]);
            }
        }
    }
    assert(b.linked()) by {
        assert forall|i: int| 0 <= i < b.work.len() implies b.placed(#[trigger] b.work[i]) by {
            let w = s.work.len() as int;
            if i < w {
                assert(b.work[i] == s.work[i]);
                assert(s.placed(s.work[i]));
                let q = choose|q: int|
                    0 <= q < s.sweeps.len() && (#[trigger] s.sweeps[q]).task == s.work[i].task
                        && s.sweeps[q].sweep == s.work[i].sweep;
                assert(b.sweeps[q] == s.sweeps[q]);
            } else {
                assert(b.work[i] == board[i - w]);
                assert(b.sweeps[m].task == task);
            }
        }
    }
    assert forall|i: int| #![trigger s.sweeps[i]] 0 <= i < m implies same_drift_at(s, b, i) by {
        let row = s.sweeps[i];
        assert(b.sweeps[i] == row);
        tally::lemma_count_join(s.work, board, state::of_sweep(row.task, row.sweep));
        tally::lemma_count_zero(board, state::of_sweep(row.task, row.sweep));
        assert forall|status: WorkStatus| #[trigger]
            s.drift(row, status) == b.drift(b.sweeps[i], status) by {
            let p = state::of_status(row.task, row.sweep, status);
            tally::lemma_count_join(s.work, board, p);
            tally::lemma_count_zero(board, p);
        }
    }
    let row = b.sweeps[m];
    assert(b.drift_total(row) == 0) by {
        let p = state::of_sweep(task, n);
        tally::lemma_count_join(s.work, board, p);
        tally::lemma_count_zero(s.work, p);
        tally::lemma_count_all(board, p);
    }
    assert forall|status: WorkStatus| #[trigger] b.drift(row, status) == 0 by {
        let p = state::of_status(task, n, status);
        tally::lemma_count_join(s.work, board, p);
        tally::lemma_count_zero(s.work, p);
        if status == WorkStatus::Pending {
            tally::lemma_count_all(board, p);
        } else {
            tally::lemma_count_zero(board, p);
        }
    }
    assert forall|i: int| 0 <= i < b.sweeps.len() implies b.near(#[trigger] b.sweeps[i]) by {
        if i < m {
            assert(s.near(s.sweeps[i]));
            assert(same_drift_at(s, b, i));
            assert forall|status: WorkStatus|
                -ROW_LIMIT <= #[trigger] b.drift(b.sweeps[i], status) <= ROW_LIMIT by {
                assert(s.drift(s.sweeps[i], status) == b.drift(b.sweeps[i], status));
            }
        }
    }
    lemma_sweep_at(b, task, n);
    assert(b.sweeps[m].task == task && b.sweeps[m].sweep == n);
    lemma_latest(b, task);
    if s.ordered() {
        let q = b.latest(task)->0;
        assert(b.sweeps[m].sweep <= b.sweeps[q].sweep);
        if q < m {
            assert(b.sweeps[q] == s.sweeps[q]);
            assert(s.owned(s.sweeps[q]));
        }
    }
}

/// Clearing a task keeps keys distinct, a valid state valid and sweeps in order.
pub proof fn lemma_reset(s: StoreView, task: Seq<char>, all: bool)
    ensures
        s.keyed() ==> s.reset(task, all).keyed(),
        s.wf() ==> s.reset(task, all).wf(),
        s.ordered() ==> s.reset(task, all).ordered(),
{
    let keep_sweep = state::sweep_elsewhere(task);
    let keep_work = state::work_elsewhere(task);
    tally::lemma_kept(s.sweeps, keep_sweep);
    tally::lemma_kept(s.work, keep_work);
    if s.keyed() {
        lemma_reset_keyed(s, task, all);
    }
    if s.ordered() {
        lemma_reset_ordered(s, task, all);
    }
    if s.wf() {
        lemma_reset_valid(s, task, all);
    }
}

proof fn lemma_reset_keyed(s: StoreView, task: Seq<char>, all: bool)
    requires
        s.keyed(),
    ensures
        s.reset(task, all).keyed(),
{
    let b = s.reset(task, all);
    tally::lemma_kept_pairs(
        s.sweeps,
        state::sweep_elsewhere(task),
        |x: SweepView, y: SweepView| !(x.task == y.task && x.sweep == y.sweep),
    );
    tally::lemma_kept_pairs(
        s.work,
        state::work_elsewhere(task),
        |x: WorkView, y: WorkView| !(x.task == y.task && x.sweep == y.sweep && x.path == y.path),
    );
    assert forall|i: int, j: int| 0 <= i < j < b.tasks.len() implies #[trigger] b.tasks[i].name
        != #[trigger] b.tasks[j].name by {
        assert(s.tasks[i].name != s.tasks[j].name);
    }
}

proof fn lemma_reset_ordered(s: StoreView, task: Seq<char>, all: bool)
    requires
        s.ordered(),
    ensures
        s.reset(task, all).ordered(),
{
    reveal(StoreView::single);
    let b = s.reset(task, all);
    let keep_sweep = state::sweep_elsewhere(task);
    tally::lemma_kept(s.sweeps, keep_sweep);
    assert forall|i: int| 0 <= i < b.sweeps.len() implies b.owned(#[trigger] b.sweeps[i]) by {
        let j = choose|j: int| 0 <= j < s.sweeps.len() && s.sweeps[j] == b.sweeps[i];
        assert(s.owned(s.sweeps[j]));
        assert(keep_sweep(b.sweeps[i]));
        assert forall|k: int|
            0 <= k < b.tasks.len() && (#[trigger] b.tasks[k]).name
                == b.sweeps[i].task implies b.sweeps[i].sweep <= b.tasks[k].current_sweep by {
            assert(b.tasks[k] == s.tasks[k]);
        }
    }
    assert forall|i: int, j: int|
        #![trigger b.sweeps[i], b.sweeps[j]]
        0 <= i < b.sweeps.len() && 0 <= j < b.sweeps.len() && b.sweeps[i].task == b.sweeps[j].task
            && b.sweeps[i].status == SweepStatus::Active implies b.sweeps[j].sweep
        <= b.sweeps[i].sweep by {
        let p = choose|p: int| 0 <= p < s.sweeps.len() && s.sweeps[p] == b.sweeps[i];
        let q = choose|q: int| 0 <= q < s.sweeps.len() && s.sweeps[q] == b.sweeps[j];
        assert(s.sweeps[p].task == s.sweeps[q].task);
    }
}

proof fn lemma_reset_valid(s: StoreView, task: Seq<char>, all: bool)
    requires
        s.wf(),
    ensures
        s.reset(task, all).wf(),
{
    let b = s.reset(task, all);
    let keep_sweep = state::sweep_elsewhere(task);
    let keep_work = state::work_elsewhere(task);
    tally::lemma_kept(s.sweeps, keep_sweep);
    tally::lemma_kept(s.work, keep_work);
    lemma_reset_keyed(s, task, all);
    assert forall|i: int| 0 <= i < b.work.len() implies b.placed(#[trigger] b.work[i]) by {
        let j = choose|j: int| 0 <= j < s.work.len() && s.work[j] == b.work[i];
        assert(s.placed(s.work[j]));
        let k = choose|k: int|
            0 <= k < s.sweeps.len() && (#[trigger] s.sweeps[k]).task == s.work[j].task
                && s.sweeps[k].sweep == s.work[j].sweep;
        assert(keep_work(b.work[i]));
        assert(keep_sweep(s.sweeps[k]));
        assert(b.sweeps.contains(s.sweeps[k]));
        let q = choose|q: int| 0 <= q < b.sweeps.len() && b.sweeps[q] == s.sweeps[k];
        assert(b.sweeps[q].task == b.work[i].task);
    }
    assert forall|i: int| 0 <= i < b.sweeps.len() implies b.near(#[trigger] b.sweeps[i]) by {
        let row = b.sweeps[i];
        let j = choose|j: int| 0 <= j < s.sweeps.len() && s.sweeps[j] == row;
        assert(s.near(s.sweeps[j]));
        assert(keep_sweep(row));
        lemma_kept_elsewhere(s, task, all, row.task, row.sweep);
        assert forall|status: WorkStatus|
            -ROW_LIMIT <= #[trigger] b.drift(row, status) <= ROW_LIMIT by {
            assert(s.drift(row, status) == b.drift(row, status));
        }
    }
}

/// Clearing a task leaves the boards of the others as they are.
pub proof fn lemma_kept_elsewhere(
    s: StoreView,
    task: Seq<char>,
    all: bool,
    other: Seq<char>,
    sweep: i64,
)
    requires
        other != task,
    ensures
        s.reset(task, all).live_total(other, sweep) == s.live_total(other, sweep),
        forall|status: WorkStatus| #[trigger]
            s.reset(task, all).live(other, sweep, status) == s.live(other, sweep, status),
{
    let keep = state::work_elsewhere(task);
    tally::lemma_kept_count(s.work, keep, state::of_sweep(other, sweep));
    assert forall|status: WorkStatus| #[trigger]
        s.reset(task, all).live(other, sweep, status) == s.live(other, sweep, status) by {
        tally::lemma_kept_count(s.work, keep, state::of_status(other, sweep, status));
    }
}

/// A task whose newest sweep is complete, or that has none, can open another.
pub proof fn lemma_can_open(s: StoreView, task: Seq<char>)
    requires
        s.keyed(),
        s.ordered(),
        s.task_at(task) is Some,
        s.latest(task) matches Some(k) ==> s.sweeps[k].status == SweepStatus::Complete,
    ensures
        s.refusal(task) is None,
{
    lemma_active(s, task);
}

/// On a new board with folders a claim finds one.
pub proof fn lemma_open_claims(
    s: StoreView,
    task: Seq<char>,
    agent: Option<Seq<char>>,
    ttl: i64,
    now: i64,
    scores: Seq<Score>,
)
    requires
        s.wf(),
        s.refusal(task) is None,
        s.has_room(task, now),
        s.folders.len() > 0,
    ensures
        s.opened(task, now, scores).claim(task, s.next_number(task), agent, ttl, now).1 is Leased,
{
    let n = s.next_number(task);
    let b = s.opened(task, now, scores);
    let c = b.reclaimed(task, n, now);
    let w = s.work.len() as int;
    lemma_opened(s, task, now, scores);
    assert(b.work[w] == s.board(task, scores)[0]);
    assert(c.work[w] == b.work[w]);
    let rank = state::by_score(task, n);
    assert(rank(c.work[w]) is Some);
    tally::lemma_top(c.work, rank);
}

/// After a claim found a sweep drained and it was closed, the task's newest
/// sweep is complete.
pub proof fn lemma_drained(
    s: StoreView,
    task: Seq<char>,
    agent: Option<Seq<char>>,
    ttl: i64,
    now: i64,
)
    requires
        s.wf(),
        s.latest(task) is Some,
    ensures
        ({
            let k = s.latest(task)->0;
            let n = s.sweeps[k].sweep;
            let t = s.claim(task, n, agent, ttl, now).0.closed(task, n, now);
            &&& t.wf()
            &&& t.latest(task) == Some(k)
            &&& t.sweeps[k].status == SweepStatus::Complete
            &&& same_keys(s, t)
            &&& same_drift(s, t)
        }),
{
    lemma_latest(s, task);
    let k = s.latest(task)->0;
    let n = s.sweeps[k].sweep;
    let a = s.claim(task, n, agent, ttl, now).0;
    let t = a.closed(task, n, now);
    lemma_claim(s, task, n, agent, ttl, now);
    lemma_closed(a, task, n, now);
    lemma_latest_kept(s, a, task);
    lemma_latest_kept(a, t, task);
    lemma_drift_chain(s, a, t);
    lemma_sweep_at(a, task, n);
}

/// Another snapshot of distinct folders keeps keys distinct, a valid state valid
/// and sweeps in order.
pub proof fn lemma_with_folders(s: StoreView, folders: Seq<FolderView>, now: i64)
    requires
        folders.len() <= ROW_LIMIT,
        forall|j: int| !#[trigger] state::repeats(folders, j),
    ensures
        s.keyed() ==> s.with_folders(folders, now).keyed(),
        s.wf() ==> s.with_folders(folders, now).wf(),
        s.ordered() ==> s.with_folders(folders, now).ordered(),
        same_drift(s, s.with_folders(folders, now)),
{
    reveal(StoreView::single);
    let b = s.with_folders(folders, now);
    assert forall|i: int, j: int|
        0 <= i < j < b.folders.len() implies #[trigger] b.folders[i].stat.path
        != #[trigger] b.folders[j].stat.path by {
        assert(!state::repeats(folders, j));
        assert(folders[i].path != folders[j].path);
    }
    lemma_drift_of_board(s, b);
    if s.ordered() {
        assert forall|i: int| 0 <= i < b.sweeps.len() implies b.owned(#[trigger] b.sweeps[i]) by {
            assert(s.owned(s.sweeps[i]));
        }
    }
    if s.wf() {
        assert forall|i: int| 0 <= i < b.work.len() implies b.placed(#[trigger] b.work[i]) by {
            assert(s.placed(s.work[i]));
        }
        assert forall|i: int| 0 <= i < b.sweeps.len() implies b.near(#[trigger] b.sweeps[i]) by {
            assert(s.near(s.sweeps[i]));
            assert forall|status: WorkStatus|
                -ROW_LIMIT <= #[trigger] b.drift(b.sweeps[i], status) <= ROW_LIMIT by {
                assert(s.drift(s.sweeps[i], status) == b.drift(b.sweeps[i], status));
            }
        }
    }
}

}
