//! What holds of the commands as a whole: leases exclude one another, covered
//! folders stay covered, counters stay right, history is only added to, and a
//! sweep covers every folder of the snapshot exactly once.

use vstd::prelude::*;
use crate::error::ErrorView;
use crate::model::{Score, SweepStatus, WorkStatus};
use crate::rows::{SweepView, WorkView};
use crate::state;
use crate::state::{ClaimView, StoreView};
use crate::tally;
use crate::validity;

verus! {

// --- leases ----------------------------------------------------------------------------

/// A lease taken with a positive time to live has not run out at the moment at
/// which it is taken, however late that is.
pub proof fn law_lease_is_live(w: WorkView, agent: Option<Seq<char>>, ttl: i64, now: i64)
    requires
        ttl > 0,
    ensures
        !w.lent(agent, state::lease_end(now, ttl)).expired(now),
{
}

/// A row once the expired leases of a sweep were returned to the pool.
pub open spec fn pooled(w: WorkView, task: Seq<char>, sweep: i64, now: i64) -> WorkView {
    if w.belongs(task, sweep) && w.expired(now) {
        w.returned()
    } else {
        w
    }
}

/// From `s` to `t` the folder in place `i` of the board was leased, and it was
/// free: pending, or its lease had run out. Every other row is in `t` what it
/// was, but for expired leases of the sweep, which were returned to the pool.
pub open spec fn leases(
    s: StoreView,
    t: StoreView,
    task: Seq<char>,
    sweep: i64,
    agent: Option<Seq<char>>,
    expires: i64,
    now: i64,
    i: int,
) -> bool {
    &&& 0 <= i < s.work.len()
    &&& s.work[i].belongs(task, sweep)
    &&& s.work[i].status == WorkStatus::Pending || s.work[i].expired(now)
    &&& t.work.len() == s.work.len()
    &&& t.work[i] == pooled(s.work[i], task, sweep, now).lent(agent, expires)
    &&& forall|j: int|
        #![trigger t.work[j]]
        #![trigger s.work[j]]
        0 <= j < s.work.len() && j != i ==> t.work[j] == pooled(s.work[j], task, sweep, now)
}

/// A claim leases exactly one folder, which was free, and answers with it; or it
/// leases none, and only returns expired leases to the pool.
pub proof fn law_claim_takes_one(
    s: StoreView,
    task: Seq<char>,
    sweep: i64,
    agent: Option<Seq<char>>,
    ttl: i64,
    now: i64,
)
    requires
        s.wf(),
        s.sweep_at(task, sweep) is Some,
    ensures
        s.claim(task, sweep, agent, ttl, now).1 matches ClaimView::Leased {
            path,
            score,
            expires,
            ..
        } ==> expires == state::lease_end(now, ttl) && exists|i: int| #[trigger]
            leases(
                s,
                s.claim(task, sweep, agent, ttl, now).0,
                task,
                sweep,
                agent,
                expires,
                now,
                i,
            ) && s.work[i].path == path && s.work[i].score == score,
        s.claim(task, sweep, agent, ttl, now).1 !is Leased ==> s.claim(
            task,
            sweep,
            agent,
            ttl,
            now,
        ).0.work == s.work.map_values(|w: WorkView| pooled(w, task, sweep, now)),
{
    let a = s.reclaimed(task, sweep, now);
    let t = s.claim(task, sweep, agent, ttl, now).0;
    let rank = state::by_score(task, sweep);
    tally::lemma_top(a.work, rank);
    assert(forall|j: int|
        0 <= j < s.work.len() ==> #[trigger] a.work[j] == pooled(s.work[j], task, sweep, now));
    match tally::top(a.work, rank) {
        Some(i) => {
            assert(rank(a.work[i]) is Some);
            assert(leases(s, t, task, sweep, agent, state::lease_end(now, ttl), now, i));
        },
        None => {
            assert(t.work =~= s.work.map_values(|w: WorkView| pooled(w, task, sweep, now)));
        },
    }
}

/// A folder whose lease has not run out is left to its owner by every claim.
pub proof fn law_live_lease_is_kept(
    s: StoreView,
    task: Seq<char>,
    sweep: i64,
    agent: Option<Seq<char>>,
    ttl: i64,
    now: i64,
    i: int,
)
    requires
        s.wf(),
        s.sweep_at(task, sweep) is Some,
        0 <= i < s.work.len(),
        s.work[i].status == WorkStatus::Leased,
        !s.work[i].expired(now),
    ensures
        s.claim(task, sweep, agent, ttl, now).0.work[i] == s.work[i],
{
    law_claim_takes_one(s, task, sweep, agent, ttl, now);
}

/// Two claims one after the other, the second before the first one's lease runs
/// out, never hand out the same folder, whoever makes them.
pub proof fn law_no_folder_twice(
    s: StoreView,
    task: Seq<char>,
    sweep: i64,
    first: Option<Seq<char>>,
    second: Option<Seq<char>>,
    ttl: i64,
    now: i64,
    later: i64,
)
    requires
        s.wf(),
        s.sweep_at(task, sweep) is Some,
        later <= state::lease_end(now, ttl),
    ensures
        ({
            let (t, c) = s.claim(task, sweep, first, ttl, now);
            let (u, d) = t.claim(task, sweep, second, ttl, later);
            c is Leased && d is Leased ==> c->path != d->path
        }),
{
    let (t, c) = s.claim(task, sweep, first, ttl, now);
    let (u, d) = t.claim(task, sweep, second, ttl, later);
    validity::lemma_claim(s, task, sweep, first, ttl, now);
    law_claim_takes_one(s, task, sweep, first, ttl, now);
    law_claim_takes_one(t, task, sweep, second, ttl, later);
    if c is Leased && d is Leased {
        let i = choose|i: int| #[trigger]
            leases(s, t, task, sweep, first, c->expires, now, i) && s.work[i].path == c->path;
        let j = choose|j: int| #[trigger]
            leases(t, u, task, sweep, second, d->expires, later, j) && t.work[j].path == d->path;
        assert(t.work[i].status == WorkStatus::Leased && !t.work[i].expired(later));
        assert(i != j);
        if i < j {
            assert(t.work[i].path != t.work[j].path);
        } else {
            assert(t.work[j].path != t.work[i].path);
        }
    }
}

/// An expired lease is never lost: the next claim on its sweep returns the
/// folder to the pool or leases it anew.
pub proof fn law_expired_lease_returns(
    s: StoreView,
    task: Seq<char>,
    sweep: i64,
    agent: Option<Seq<char>>,
    ttl: i64,
    now: i64,
    i: int,
)
    requires
        s.wf(),
        s.sweep_at(task, sweep) is Some,
        0 <= i < s.work.len(),
        s.work[i].belongs(task, sweep),
        s.work[i].expired(now),
    ensures
        ({
            let t = s.claim(task, sweep, agent, ttl, now).0;
            t.work[i] == s.work[i].returned() || t.work[i] == s.work[i].lent(
                agent,
                state::lease_end(now, ttl),
            )
        }),
{
    law_claim_takes_one(s, task, sweep, agent, ttl, now);
}

/// The folder that a claim leases has the highest score of all that are free.
pub proof fn law_highest_score_first(
    s: StoreView,
    task: Seq<char>,
    sweep: i64,
    agent: Option<Seq<char>>,
    ttl: i64,
    now: i64,
)
    requires
        s.wf(),
        s.sweep_at(task, sweep) is Some,
    ensures
        s.claim(task, sweep, agent, ttl, now).1 matches ClaimView::Leased { score, .. }
            ==> forall|j: int|
            0 <= j < s.work.len() && (#[trigger] s.work[j]).belongs(task, sweep) && (
            s.work[j].status == WorkStatus::Pending || s.work[j].expired(now)) ==> s.work[j].score.key
                <= score.key,
        s.claim(task, sweep, agent, ttl, now).1 !is Leased ==> forall|j: int|
            0 <= j < s.work.len() && (#[trigger] s.work[j]).belongs(task, sweep)
                ==> s.work[j].status != WorkStatus::Pending && !s.work[j].expired(now),
{
    let a = s.reclaimed(task, sweep, now);
    let rank = state::by_score(task, sweep);
    tally::lemma_top(a.work, rank);
    assert forall|j: int|
        0 <= j < s.work.len() && (#[trigger] s.work[j]).belongs(task, sweep) && (s.work[j].status
            == WorkStatus::Pending || s.work[j].expired(now)) implies rank(a.work[j]) == Some(
        (s.work[j].score.key as int, 0int),
    ) by {}
    if let Some(i) = tally::top(a.work, rank) {
        assert(tally::is_top(a.work, rank, i));
        assert(rank(a.work[i]) is Some);
        assert forall|j: int|
            0 <= j < s.work.len() && (#[trigger] s.work[j]).belongs(task, sweep) && (
            s.work[j].status == WorkStatus::Pending || s.work[j].expired(
                now,
            )) implies s.work[j].score.key <= a.work[i].score.key by {
            assert(rank(a.work[j]) is Some);
        }
    } else {
        assert forall|j: int|
            0 <= j < s.work.len() && (#[trigger] s.work[j]).belongs(
                task,
                sweep,
            ) implies s.work[j].status != WorkStatus::Pending && !s.work[j].expired(now) by {
            assert(rank(a.work[j]) is None);
        }
    }
}

/// A claim finds a sweep drained exactly if none of its folders is free and its
/// counters hold no leased one.
pub proof fn lemma_drained_when(
    s: StoreView,
    task: Seq<char>,
    sweep: i64,
    agent: Option<Seq<char>>,
    ttl: i64,
    now: i64,
)
    requires
        s.wf(),
        s.sweep_at(task, sweep) is Some,
    ensures
        s.claim(task, sweep, agent, ttl, now).1 is Empty <==> tally::count(
            s.work,
            state::free(task, sweep, now),
        ) == 0 && s.sweeps[s.sweep_at(task, sweep)->0].leased <= 0,
{
    let k = s.sweep_at(task, sweep)->0;
    let free = state::free(task, sweep, now);
    let due = state::due(task, sweep, now);
    validity::lemma_sweep_at(s, task, sweep);
    validity::lemma_reclaimed(s, task, sweep, now);
    law_claim_takes_one(s, task, sweep, agent, ttl, now);
    law_highest_score_first(s, task, sweep, agent, ttl, now);
    tally::lemma_count_zero(s.work, free);
    tally::lemma_count_zero(s.work, due);
    if let ClaimView::Leased { expires, .. } = s.claim(task, sweep, agent, ttl, now).1 {
        let t = s.claim(task, sweep, agent, ttl, now).0;
        let i = choose|i: int| #[trigger] leases(s, t, task, sweep, agent, expires, now, i);
        assert(free(s.work[i]));
    } else {
        assert forall|i: int| 0 <= i < s.work.len() implies !free(#[trigger] s.work[i]) by {}
        assert forall|i: int| 0 <= i < s.work.len() implies !due(#[trigger] s.work[i]) by {
            assert(!free(s.work[i]));
        }
    }
}

/// Once expired leases were collected none is left that had run out by then;
/// other rows are as they were; and doing it again changes nothing.
pub proof fn law_gc_collects_exactly_the_expired(s: StoreView, now: i64)
    requires
        s.wf(),
    ensures
        forall|i: int|
            0 <= i < s.work.len() ==> !(#[trigger] s.swept(now).work[i]).expired(now),
        forall|i: int|
            0 <= i < s.work.len() && !(#[trigger] s.work[i]).expired(now) ==> s.swept(now).work[i]
                == s.work[i],
        s.swept(now).swept(now) == s.swept(now),
        tally::count(s.swept(now).work, state::due_anywhere(now)) == 0,
{
    let t = s.swept(now);
    tally::lemma_count_zero(t.work, state::due_anywhere(now));
    assert(t.swept(now).work =~= t.work);
    assert forall|k: int| 0 <= k < t.sweeps.len() implies #[trigger] t.swept(now).sweeps[k]
        == t.sweeps[k] by {
        tally::lemma_count_zero(t.work, state::due(t.sweeps[k].task, t.sweeps[k].sweep, now));
    }
    assert(t.swept(now).sweeps =~= t.sweeps);
}

// --- what a command leaves alone ---------------------------------------------------------

/// The rows are about the same folder of the same sweep, with the same score.
pub open spec fn same_item(a: WorkView, b: WorkView) -> bool {
    a.task == b.task && a.sweep == b.sweep && a.path == b.path && a.score == b.score
}

/// The rows are about the same sweep, opened at the same time with as many folders.
pub open spec fn same_sweep(a: SweepView, b: SweepView) -> bool {
    a.task == b.task && a.sweep == b.sweep && a.started_at == b.started_at && a.total == b.total
}

/// Everything that a command on `task` may not touch is in `t` what it is in
/// `s`: the snapshot, the rows of other tasks, what is covered already, the
/// numbers and sizes of the sweeps, the path and the score of every folder on a
/// board, and the history so far. What was added belongs to the task.
pub open spec fn respects(s: StoreView, t: StoreView, task: Seq<char>) -> bool {
    &&& t.folders == s.folders
    &&& s.tasks.len() <= t.tasks.len()
    &&& s.sweeps.len() <= t.sweeps.len()
    &&& s.work.len() <= t.work.len()
    &&& s.visits.len() <= t.visits.len()
    &&& forall|i: int|
        #![trigger s.tasks[i]]
        #![trigger t.tasks[i]]
        0 <= i < t.tasks.len() ==> if i < s.tasks.len() && s.tasks[i].name != task {
            t.tasks[i] == s.tasks[i]
        } else {
            t.tasks[i].name == task
        }
    &&& forall|i: int|
        #![trigger s.sweeps[i]]
        #![trigger t.sweeps[i]]
        0 <= i < t.sweeps.len() ==> if i < s.sweeps.len() {
            &&& same_sweep(s.sweeps[i], t.sweeps[i])
            &&& s.sweeps[i].task != task ==> t.sweeps[i] == s.sweeps[i]
        } else {
            t.sweeps[i].task == task
        }
    &&& forall|i: int|
        #![trigger s.work[i]]
        #![trigger t.work[i]]
        0 <= i < t.work.len() ==> if i < s.work.len() {
            &&& same_item(s.work[i], t.work[i])
            &&& s.work[i].task != task || s.work[i].status.terminal() ==> t.work[i] == s.work[i]
        } else {
            t.work[i].task == task
        }
    &&& forall|i: int|
        #![trigger s.visits[i]]
        #![trigger t.visits[i]]
        0 <= i < t.visits.len() ==> if i < s.visits.len() {
            t.visits[i] == s.visits[i]
        } else {
            t.visits[i].task == task
        }
}

proof fn lemma_respects_chain(a: StoreView, b: StoreView, c: StoreView, task: Seq<char>)
    requires
        respects(a, b, task),
        respects(b, c, task),
    ensures
        respects(a, c, task),
{
    assert forall|i: int|
        #![trigger a.tasks[i]]
        #![trigger c.tasks[i]]
        0 <= i < c.tasks.len() implies if i < a.tasks.len() && a.tasks[i].name != task {
        c.tasks[i] == a.tasks[i]
    } else {
        c.tasks[i].name == task
    } by {
        if i < b.tasks.len() {
            assert(b.tasks[i] == b.tasks[i]);
        }
    }
    assert forall|i: int|
        #![trigger a.sweeps[i]]
        #![trigger c.sweeps[i]]
        0 <= i < c.sweeps.len() implies if i < a.sweeps.len() {
        &&& same_sweep(a.sweeps[i], c.sweeps[i])
        &&& a.sweeps[i].task != task ==> c.sweeps[i] == a.sweeps[i]
    } else {
        c.sweeps[i].task == task
    } by {
        if i < b.sweeps.len() {
            assert(b.sweeps[i] == b.sweeps[i]);
        }
    }
    assert forall|i: int|
        #![trigger a.work[i]]
        #![trigger c.work[i]]
        0 <= i < c.work.len() implies if i < a.work.len() {
        &&& same_item(a.work[i], c.work[i])
        &&& a.work[i].task != task || a.work[i].status.terminal() ==> c.work[i] == a.work[i]
    } else {
        c.work[i].task == task
    } by {
        if i < b.work.len() {
            assert(b.work[i] == b.work[i]);
        }
    }
    assert forall|i: int|
        #![trigger a.visits[i]]
        #![trigger c.visits[i]]
        0 <= i < c.visits.len() implies if i < a.visits.len() {
        c.visits[i] == a.visits[i]
    } else {
        c.visits[i].task == task
    } by {
        if i < b.visits.len() {
            assert(b.visits[i] == b.visits[i]);
        }
    }
}

proof fn lemma_claim_respects(
    s: StoreView,
    task: Seq<char>,
    sweep: i64,
    agent: Option<Seq<char>>,
    ttl: i64,
    now: i64,
)
    requires
        s.wf(),
        s.sweep_at(task, sweep) is Some,
    ensures
        respects(s, s.claim(task, sweep, agent, ttl, now).0, task),
        s.claim(task, sweep, agent, ttl, now).0.visits == s.visits,
{
    let t = s.claim(task, sweep, agent, ttl, now).0;
    validity::lemma_sweep_at(s, task, sweep);
    validity::lemma_claim(s, task, sweep, agent, ttl, now);
    validity::lemma_reclaimed(s, task, sweep, now);
    law_claim_takes_one(s, task, sweep, agent, ttl, now);
    if s.claim(task, sweep, agent, ttl, now).1 is Leased {
        let i = choose|i: int| #[trigger]
            leases(s, t, task, sweep, agent, state::lease_end(now, ttl), now, i);
        assert(leases(s, t, task, sweep, agent, state::lease_end(now, ttl), now, i));
    }
}

proof fn lemma_closed_respects(s: StoreView, task: Seq<char>, sweep: i64, now: i64)
    requires
        s.wf(),
    ensures
        respects(s, s.closed(task, sweep, now), task),
        s.closed(task, sweep, now).visits == s.visits,
{
    validity::lemma_sweep_at(s, task, sweep);
}

proof fn lemma_opened_respects(s: StoreView, task: Seq<char>, now: i64, scores: Seq<Score>)
    requires
        s.wf(),
        s.refusal(task) is None,
        s.has_room(task, now),
    ensures
        respects(s, s.opened(task, now, scores), task),
        s.opened(task, now, scores).visits == s.visits,
{
    let t = s.opened(task, now, scores);
    validity::lemma_task_at(s, task);
    let k = s.task_at(task)->0;
    assert forall|i: int|
        #![trigger s.work[i]]
        #![trigger t.work[i]]
        0 <= i < t.work.len() implies if i < s.work.len() {
        &&& same_item(s.work[i], t.work[i])
        &&& s.work[i].task != task || s.work[i].status.terminal() ==> t.work[i] == s.work[i]
    } else {
        t.work[i].task == task
    } by {
        if i < s.work.len() {
            assert(t.work[i] == s.work[i]);
        } else {
            assert(t.work[i] == s.board(task, scores)[i - s.work.len()]);
        }
    }
}

/// What must hold for `next` to go through: the state is valid, the task is
/// registered, and where a sweep is opened nothing stands against it.
pub open spec fn ready(
    s: StoreView,
    task: Seq<char>,
    agent: Option<Seq<char>>,
    ttl: i64,
    auto: bool,
    now: i64,
) -> bool {
    &&& s.wf()
    &&& s.task_at(task) is Some
    &&& s.opening(task, agent, ttl, auto, now) matches Some(t) ==> t.refusal(task) is None
        && t.has_room(task, now)
}

/// Where `next` opens a sweep, it does so from a valid state which is the present
/// one but for what a claim on a drained sweep and its closing changed, and in
/// which, as long as sweeps are in order, no sweep of the task is active.
pub proof fn lemma_opening(
    s: StoreView,
    task: Seq<char>,
    agent: Option<Seq<char>>,
    ttl: i64,
    auto: bool,
    now: i64,
)
    requires
        s.wf(),
        s.task_at(task) is Some,
    ensures
        s.opening(task, agent, ttl, auto, now) matches Some(t) ==> {
            &&& t.wf()
            &&& s.ordered() ==> t.ordered() && t.refusal(task) is None
            &&& respects(s, t, task)
            &&& t.visits == s.visits
            &&& t.tasks == s.tasks
            &&& validity::same_keys(s, t)
            &&& validity::same_drift(s, t)
            &&& t.task_at(task) == s.task_at(task)
        },
{
    validity::lemma_latest(s, task);
    validity::lemma_task_at(s, task);
    if let Some(t) = s.opening(task, agent, ttl, auto, now) {
        match s.latest(task) {
            None => {
                if s.ordered() {
                    validity::lemma_can_open(s, task);
                }
                validity::lemma_drift_of_board(s, s);
            },
            Some(k) => {
                let n = s.sweeps[k].sweep;
                if s.sweeps[k].status == SweepStatus::Complete {
                    if s.ordered() {
                        validity::lemma_can_open(s, task);
                    }
                    validity::lemma_drift_of_board(s, s);
                } else {
                    let a = s.claim(task, n, agent, ttl, now).0;
                    validity::lemma_drained(s, task, agent, ttl, now);
                    validity::lemma_claim(s, task, n, agent, ttl, now);
                    lemma_claim_respects(s, task, n, agent, ttl, now);
                    lemma_closed_respects(a, task, n, now);
                    lemma_respects_chain(s, a, t, task);
                    validity::lemma_task_at(t, task);
                    assert(t.tasks[s.task_at(task)->0].name == task);
                    if s.ordered() {
                        validity::lemma_order_kept(s, t);
                        validity::lemma_can_open(t, task);
                    }
                }
            },
        }
    }
}

/// `next` touches nothing but its own task's unfinished rows and sweeps, and no
/// history: other tasks, covered folders and past visits stay as they are.
pub proof fn law_next_respects_the_rest(
    s: StoreView,
    task: Seq<char>,
    agent: Option<Seq<char>>,
    ttl: i64,
    auto: bool,
    now: i64,
    scores: Seq<Score>,
)
    requires
        ready(s, task, agent, ttl, auto, now),
    ensures
        respects(s, s.next_step(task, agent, ttl, auto, now, scores).0, task),
        s.next_step(task, agent, ttl, auto, now, scores).0.visits == s.visits,
{
    let u = s.next_step(task, agent, ttl, auto, now, scores).0;
    validity::lemma_latest(s, task);
    lemma_opening(s, task, agent, ttl, auto, now);
    match s.opening(task, agent, ttl, auto, now) {
        Some(t) => {
            let n = t.next_number(task);
            let o = t.opened(task, now, scores);
            validity::lemma_opened(t, task, now, scores);
            lemma_opened_respects(t, task, now, scores);
            lemma_respects_chain(s, t, o, task);
            if t.folders.len() == 0 {
                lemma_closed_respects(o, task, n, now);
                lemma_respects_chain(s, o, u, task);
            } else {
                validity::lemma_open_claims(t, task, agent, ttl, now, scores);
                lemma_claim_respects(o, task, n, agent, ttl, now);
                lemma_respects_chain(s, o, u, task);
            }
        },
        None => {
            let k = s.latest(task)->0;
            let n = s.sweeps[k].sweep;
            if s.sweeps[k].status != SweepStatus::Complete {
                let a = s.claim(task, n, agent, ttl, now).0;
                validity::lemma_claim(s, task, n, agent, ttl, now);
                lemma_claim_respects(s, task, n, agent, ttl, now);
                lemma_closed_respects(a, task, n, now);
                lemma_respects_chain(s, a, a.closed(task, n, now), task);
            }
        },
    }
}

/// `complete` touches nothing but its own task's unfinished rows and sweeps, and
/// adds at most one visit to the history.
pub proof fn law_complete_respects_the_rest(
    s: StoreView,
    task: Seq<char>,
    path: Seq<char>,
    agent: Option<Seq<char>>,
    status: WorkStatus,
    reason: Option<Seq<char>>,
    found: Option<i64>,
    now: i64,
)
    requires
        s.wf(),
    ensures
        s.complete(task, path, agent, status, reason, found, now) matches Ok((t, _)) ==> respects(
            s,
            t,
            task,
        ) && t.visits.len() <= s.visits.len() + 1,
{
    if let Ok((t, _)) = s.complete(task, path, agent, status, reason, found, now) {
        let rank = state::by_relevance(task, path, agent);
        tally::lemma_top(s.work, rank);
        let i = tally::top(s.work, rank)->0;
        assert(rank(s.work[i]) is Some);
        let row = s.work[i];
        validity::lemma_placed(s, i);
        let m = if row.status.terminal() {
            s
        } else {
            s.covered(i, agent, status, reason, found, now)
        };
        if !row.status.terminal() {
            validity::lemma_covered(s, i, agent, status, reason, found, now);
        }
        assert(respects(s, m, task));
        lemma_closed_respects(m, task, row.sweep, now);
        lemma_respects_chain(s, m, m.closed(task, row.sweep, now), task);
    }
}

/// Collecting expired leases leaves covered folders and the history as they are.
pub proof fn law_gc_respects_the_rest(s: StoreView, now: i64)
    requires
        s.wf(),
    ensures
        s.swept(now).folders == s.folders,
        s.swept(now).tasks == s.tasks,
        s.swept(now).visits == s.visits,
        forall|i: int|
            0 <= i < s.work.len() && (#[trigger] s.work[i]).status.terminal() ==> s.swept(
                now,
            ).work[i] == s.work[i],
        forall|i: int|
            0 <= i < s.work.len() ==> same_item(#[trigger] s.work[i], s.swept(now).work[i]),
{
}

/// Clearing a task removes all its sweeps and nothing of any other task. Its
/// history stays unless it is asked for too, and its next sweep is its first.
pub proof fn law_reset_clears_one_task(s: StoreView, task: Seq<char>, all: bool)
    requires
        s.wf(),
    ensures
        s.reset(task, all).latest(task) is None,
        s.reset(task, all).folders == s.folders,
        forall|w: WorkView| #[trigger]
            s.reset(task, all).work.contains(w) <==> s.work.contains(w) && w.task != task,
        forall|r: SweepView| #[trigger]
            s.reset(task, all).sweeps.contains(r) <==> s.sweeps.contains(r) && r.task != task,
        !all ==> s.reset(task, all).visits == s.visits,
        all ==> forall|i: int|
            0 <= i < s.reset(task, all).visits.len() ==> (#[trigger] s.reset(
                task,
                all,
            ).visits[i]).task != task,
        s.task_at(task) is Some ==> s.reset(task, all).task_at(task) == s.task_at(task)
            && s.reset(task, all).next_number(task) == 1,
{
    let t = s.reset(task, all);
    validity::lemma_reset(s, task, all);
    validity::lemma_latest(t, task);
    tally::lemma_kept(s.work, state::work_elsewhere(task));
    tally::lemma_kept(s.sweeps, state::sweep_elsewhere(task));
    tally::lemma_kept(s.visits, state::visit_elsewhere(task));
    assert forall|w: WorkView| #[trigger] t.work.contains(w) <==> s.work.contains(w) && w.task
        != task by {
        if t.work.contains(w) {
            let i = choose|i: int| 0 <= i < t.work.len() && t.work[i] == w;
            assert(state::work_elsewhere(task)(t.work[i]));
        }
        if s.work.contains(w) && w.task != task {
            let i = choose|i: int| 0 <= i < s.work.len() && s.work[i] == w;
            assert(state::work_elsewhere(task)(s.work[i]));
        }
    }
    assert forall|r: SweepView| #[trigger] t.sweeps.contains(r) <==> s.sweeps.contains(r) && r.task
        != task by {
        if t.sweeps.contains(r) {
            let i = choose|i: int| 0 <= i < t.sweeps.len() && t.sweeps[i] == r;
            assert(state::sweep_elsewhere(task)(t.sweeps[i]));
        }
        if s.sweeps.contains(r) && r.task != task {
            let i = choose|i: int| 0 <= i < s.sweeps.len() && s.sweeps[i] == r;
            assert(state::sweep_elsewhere(task)(s.sweeps[i]));
        }
    }
    assert forall|i: int| 0 <= i < t.sweeps.len() implies (#[trigger] t.sweeps[i]).task != task by {
        assert(state::sweep_elsewhere(task)(t.sweeps[i]));
    }
    if all {
        assert forall|i: int| 0 <= i < t.visits.len() implies (#[trigger] t.visits[i]).task
            != task by {
            assert(state::visit_elsewhere(task)(t.visits[i]));
        }
    }
    if let Some(k) = s.task_at(task) {
        validity::lemma_task_at(s, task);
        validity::lemma_task_at(t, task);
        assert(t.tasks[k].name == task);
    }
}

/// A new snapshot leaves every sweep that was opened before, and all of its
/// board, as it is.
pub proof fn law_rescan_keeps_open_sweeps(
    s: StoreView,
    folders: Seq<crate::model::FolderView>,
    now: i64,
)
    ensures
        s.with_folders(folders, now).work == s.work,
        s.with_folders(folders, now).sweeps == s.sweeps,
        s.with_folders(folders, now).tasks == s.tasks,
        s.with_folders(folders, now).visits == s.visits,
{
}

// --- sweeps ------------------------------------------------------------------------------

/// A task has at most one active sweep, and it is the newest.
pub proof fn law_one_active_sweep(s: StoreView, i: int, j: int)
    requires
        s.keyed(),
        s.ordered(),
        0 <= i < s.sweeps.len(),
        0 <= j < s.sweeps.len(),
        s.sweeps[i].task == s.sweeps[j].task,
        s.sweeps[i].status == SweepStatus::Active,
    ensures
        s.sweeps[j].status == SweepStatus::Active ==> i == j,
        s.sweeps[j].sweep <= s.sweeps[i].sweep,
        s.latest(s.sweeps[i].task) == Some(i),
{
    reveal(StoreView::single);
    let task = s.sweeps[i].task;
    validity::lemma_latest(s, task);
    let k = s.latest(task)->0;
    assert(s.sweeps[i].sweep <= s.sweeps[k].sweep);
    validity::lemma_sweep_at(s, task, s.sweeps[i].sweep);
}

/// A sweep is opened for a registered task exactly if none of its sweeps is
/// active, and else refused because one is; an in-progress sweep is never orphaned.
pub proof fn law_open_only_when_none_is_active(s: StoreView, task: Seq<char>)
    requires
        s.task_at(task) is Some,
    ensures
        s.refusal(task) is None <==> forall|i: int|
            0 <= i < s.sweeps.len() && (#[trigger] s.sweeps[i]).task == task ==> s.sweeps[i].status
                == SweepStatus::Complete,
        s.refusal(task) is Some ==> exists|i: int|
            0 <= i < s.sweeps.len() && (#[trigger] s.sweeps[i]).task == task && s.sweeps[i].status
                == SweepStatus::Active && s.refusal(task) == Some(
                ErrorView::SweepActive(state::still_active(task, s.sweeps[i].sweep)),
            ),
{
    let rank = state::by_newest_active(task);
    tally::lemma_top(s.sweeps, rank);
    if s.refusal(task) is None {
        assert forall|i: int|
            0 <= i < s.sweeps.len() && (#[trigger] s.sweeps[i]).task == task implies s.sweeps[i].status
            == SweepStatus::Complete by {
            assert(rank(s.sweeps[i]) is None);
        }
    } else {
        let i = s.active(task)->0;
        assert(rank(s.sweeps[i]) is Some);
    }
}

/// What is said while a sweep is active contains the words "still active".
pub proof fn law_a_refusal_says_still_active(task: Seq<char>, sweep: i64)
    ensures
        exists|i: int|
            0 <= i <= state::still_active(task, sweep).len() - 12 && #[trigger] state::still_active(
                task,
                sweep,
            ).subrange(i, i + 12) == "still active"@,
{
    reveal_strlit("still active");
    reveal_strlit(" is still active; finish or reset it before opening a new sweep");
    let head = "sweep "@ + crate::text::decimal_text(sweep as int) + " for task "@
        + crate::text::quoted_text(task);
    let tail = " is still active; finish or reset it before opening a new sweep"@;
    let m = state::still_active(task, sweep);
    assert(m == head + tail);
    let i: int = head.len() + 4int;
    assert(m.subrange(i, i + 12) =~= tail.subrange(4, 16));
    assert(tail.subrange(4, 16) =~= "still active"@);
}

/// What a number of agents that open a sweep of a task one after the other, each at
/// its time and with its scores, come to: the state, and how each is refused, if it
/// is.
pub open spec fn attempts(s: StoreView, task: Seq<char>, calls: Seq<(i64, Seq<Score>)>) -> (
    StoreView,
    Seq<Option<ErrorView>>,
)
    decreases calls.len(),
{
    if calls.len() == 0 {
        (s, Seq::empty())
    } else {
        let (t, rs) = attempts(s, task, calls.drop_last());
        let (now, scores) = calls.last();
        match t.refusal(task) {
            Some(e) => (t, rs.push(Some(e))),
            None => (t.opened(task, now, scores), rs.push(None)),
        }
    }
}

/// Opening is free of races: of however many agents that open a sweep of a task
/// exactly the first succeeds; each of the others is told that its sweep is still
/// active, and changes nothing. The task has one active sweep then.
pub proof fn law_only_one_opens(s: StoreView, task: Seq<char>, calls: Seq<(i64, Seq<Score>)>)
    requires
        s.wf(),
        s.refusal(task) is None,
        calls.len() > 0,
        s.has_room(task, calls[0].0),
    ensures
        ({
            let (t, rs) = attempts(s, task, calls);
            &&& t == s.opened(task, calls[0].0, calls[0].1)
            &&& t.wf()
            &&& rs.len() == calls.len()
            &&& rs[0] is None
            &&& forall|i: int|
                0 < i < calls.len() ==> #[trigger] rs[i] == Some(
                    ErrorView::SweepActive(state::still_active(task, s.next_number(task))),
                )
            &&& forall|i: int|
                0 <= i < t.sweeps.len() && (#[trigger] t.sweeps[i]).task == task ==> (
                t.sweeps[i].status == SweepStatus::Active <==> i == s.sweeps.len())
        }),
    decreases calls.len(),
{
    let (now, scores) = calls[0];
    let t = s.opened(task, now, scores);
    lemma_opened_is_active(s, task, now, scores);
    if calls.len() == 1 {
        assert(calls.drop_last() =~= Seq::<(i64, Seq<Score>)>::empty());
        assert(attempts(s, task, calls.drop_last()) == (s, Seq::<Option<ErrorView>>::empty()));
    } else {
        law_only_one_opens(s, task, calls.drop_last());
    }
}

/// Once a sweep is opened it is the task's only active one.
proof fn lemma_opened_is_active(s: StoreView, task: Seq<char>, now: i64, scores: Seq<Score>)
    requires
        s.wf(),
        s.refusal(task) is None,
        s.has_room(task, now),
    ensures
        ({
            let t = s.opened(task, now, scores);
            &&& t.wf()
            &&& t.refusal(task) == Some(
                ErrorView::SweepActive(state::still_active(task, s.next_number(task))),
            )
            &&& forall|i: int|
                0 <= i < t.sweeps.len() && (#[trigger] t.sweeps[i]).task == task ==> (
                t.sweeps[i].status == SweepStatus::Active <==> i == s.sweeps.len())
        }),
{
    let t = s.opened(task, now, scores);
    let m = s.sweeps.len() as int;
    let rank = state::by_newest_active(task);
    validity::lemma_opened(s, task, now, scores);
    validity::lemma_task_at(s, task);
    validity::lemma_task_at(t, task);
    law_open_only_when_none_is_active(s, task);
    assert(t.tasks[s.task_at(task)->0].name == task);
    assert forall|i: int| 0 <= i < t.sweeps.len() && (#[trigger] t.sweeps[i]).task == task implies (
    t.sweeps[i].status == SweepStatus::Active <==> i == m) by {
        if i < m {
            assert(t.sweeps[i] == s.sweeps[i]);
        }
    }
    tally::lemma_top(t.sweeps, rank);
    assert(rank(t.sweeps[m]) is Some);
    let k = t.active(task)->0;
    assert(rank(t.sweeps[k]) is Some);
    assert(k == m);
}

/// A new sweep has the number after the task's last one, which none of its sweeps
/// has and, where they are in order, none exceeds; its board holds every folder of the snapshot exactly
/// once, pending, with the score that was computed for it, and nothing else.
pub proof fn law_new_sweep_is_the_snapshot(
    s: StoreView,
    task: Seq<char>,
    now: i64,
    scores: Seq<Score>,
)
    requires
        s.wf(),
        s.refusal(task) is None,
        s.has_room(task, now),
    ensures
        ({
            let t = s.opened(task, now, scores);
            let n = s.next_number(task);
            &&& n == s.tasks[s.task_at(task)->0].current_sweep + 1
            &&& forall|i: int|
                0 <= i < s.sweeps.len() && (#[trigger] s.sweeps[i]).task == task
                    ==> s.sweeps[i].sweep != n && (s.ordered() ==> s.sweeps[i].sweep < n)
            &&& t.sweeps[s.sweeps.len() as int].total == s.folders.len()
            &&& t.live_total(task, n) == s.folders.len()
            &&& t.live(task, n, WorkStatus::Pending) == s.folders.len()
            &&& forall|i: int|
                0 <= i < s.folders.len() ==> (#[trigger] t.work[s.work.len() + i]).belongs(task, n)
                    && t.work[s.work.len() + i].path == s.folders[i].stat.path
                    && t.work[s.work.len() + i].score == scores[i]
                    && t.work[s.work.len() + i].status == WorkStatus::Pending
            &&& forall|i: int|
                0 <= i < s.work.len() ==> !(#[trigger] t.work[i]).belongs(task, n)
        }),
{
    let t = s.opened(task, now, scores);
    let n = s.next_number(task);
    let m = s.sweeps.len() as int;
    validity::lemma_opened(s, task, now, scores);
    validity::lemma_task_at(s, task);
    assert(t.drift_total(t.sweeps[m]) == 0);
    assert(t.drift(t.sweeps[m], WorkStatus::Pending) == 0);
    assert forall|i: int|
        0 <= i < s.sweeps.len() && (#[trigger] s.sweeps[i]).task == task implies s.sweeps[i].sweep
        != n && (s.ordered() ==> s.sweeps[i].sweep < n) by {
        assert(s.current(task) == s.tasks[s.task_at(task)->0].current_sweep);
        if s.ordered() {
            assert(s.owned(s.sweeps[i]));
        }
    }
    assert forall|i: int| 0 <= i < s.folders.len() implies (#[trigger] t.work[s.work.len() + i])
        == s.board(task, scores)[i] by {}
    assert forall|i: int| 0 <= i < s.work.len() implies !(#[trigger] t.work[i]).belongs(
        task,
        n,
    ) by {
        assert(t.work[i] == s.work[i]);
        assert(s.placed(s.work[i]));
    }
}

// --- counters ------------------------------------------------------------------------------

/// The folders of a sweep are those pending, leased, done and skipped.
pub proof fn law_statuses_add_up(s: StoreView, task: Seq<char>, sweep: i64)
    ensures
        s.live_total(task, sweep) == s.live(task, sweep, WorkStatus::Pending) + s.live(
            task,
            sweep,
            WorkStatus::Leased,
        ) + s.live(task, sweep, WorkStatus::Done) + s.live(task, sweep, WorkStatus::Skipped),
{
    let p = state::of_status(task, sweep, WorkStatus::Pending);
    let l = state::of_status(task, sweep, WorkStatus::Leased);
    let d = state::of_status(task, sweep, WorkStatus::Done);
    let k = state::of_status(task, sweep, WorkStatus::Skipped);
    let open = |w: WorkView| p(w) || l(w);
    let closed = |w: WorkView| d(w) || k(w);
    tally::lemma_count_split(s.work, p, l, s.work, open);
    tally::lemma_count_split(s.work, d, k, s.work, closed);
    tally::lemma_count_split(s.work, open, closed, s.work, state::of_sweep(task, sweep));
}

/// Right counters add up to the total.
pub proof fn law_counters_add_up(s: StoreView, k: int)
    requires
        0 <= k < s.sweeps.len(),
        s.right(s.sweeps[k]),
    ensures
        s.sweeps[k].total == s.sweeps[k].pending + s.sweeps[k].leased + s.sweeps[k].done
            + s.sweeps[k].skipped,
{
    let r = s.sweeps[k];
    law_statuses_add_up(s, r.task, r.sweep);
    assert(s.drift_total(r) == 0);
    assert(s.drift(r, WorkStatus::Pending) == 0);
    assert(s.drift(r, WorkStatus::Leased) == 0);
    assert(s.drift(r, WorkStatus::Done) == 0);
    assert(s.drift(r, WorkStatus::Skipped) == 0);
}

/// Right counters stay right where none is off by more or less.
pub proof fn lemma_stays_right(a: StoreView, b: StoreView, k: int)
    requires
        0 <= k < a.sweeps.len(),
        a.right(a.sweeps[k]),
        validity::same_drift(a, b),
    ensures
        b.right(b.sweeps[k]),
{
    assert(validity::same_drift_at(a, b, k)) by {
        assert(a.sweeps[k] == a.sweeps[k]);
    }
    assert forall|status: WorkStatus| #[trigger] b.drift(b.sweeps[k], status) == 0 by {
        assert(a.drift(a.sweeps[k], status) == b.drift(b.sweeps[k], status));
    }
}

pub proof fn lemma_consistent(a: StoreView, b: StoreView)
    requires
        a.consistent(),
        validity::same_drift(a, b),
    ensures
        b.consistent(),
{
    assert forall|i: int| #![trigger b.sweeps[i]] 0 <= i < b.sweeps.len() implies b.drift_total(
        b.sweeps[i],
    ) == 0 && (forall|status: WorkStatus| #[trigger] b.drift(b.sweeps[i], status) == 0) by {
        assert(a.drift_total(a.sweeps[i]) == 0);
        assert(validity::same_drift_at(a, b, i));
        assert forall|status: WorkStatus| #[trigger] b.drift(b.sweeps[i], status) == 0 by {
            assert(a.drift(a.sweeps[i], status) == b.drift(b.sweeps[i], status));
        }
    }
}

pub proof fn lemma_opened_consistent(s: StoreView, task: Seq<char>, now: i64, scores: Seq<Score>)
    requires
        s.wf(),
        s.consistent(),
        s.refusal(task) is None,
        s.has_room(task, now),
    ensures
        s.opened(task, now, scores).consistent(),
{
    let t = s.opened(task, now, scores);
    let m = s.sweeps.len() as int;
    validity::lemma_opened(s, task, now, scores);
    assert forall|i: int| #![trigger t.sweeps[i]] 0 <= i < t.sweeps.len() implies t.drift_total(
        t.sweeps[i],
    ) == 0 && (forall|status: WorkStatus| #[trigger] t.drift(t.sweeps[i], status) == 0) by {
        if i < m {
            assert(s.drift_total(s.sweeps[i]) == 0);
            assert(validity::same_drift_at(s, t, i));
            assert forall|status: WorkStatus| #[trigger] t.drift(t.sweeps[i], status) == 0 by {
                assert(s.drift(s.sweeps[i], status) == t.drift(t.sweeps[i], status));
            }
        } else {
            assert(i == m);
        }
    }
}

/// `next` keeps the state valid and right counters right.
pub proof fn law_next_keeps_counters_right(
    s: StoreView,
    task: Seq<char>,
    agent: Option<Seq<char>>,
    ttl: i64,
    auto: bool,
    now: i64,
    scores: Seq<Score>,
)
    requires
        ready(s, task, agent, ttl, auto, now),
    ensures
        s.next_step(task, agent, ttl, auto, now, scores).0.wf(),
        s.consistent() ==> s.next_step(task, agent, ttl, auto, now, scores).0.consistent(),
{
    let u = s.next_step(task, agent, ttl, auto, now, scores).0;
    validity::lemma_latest(s, task);
    lemma_opening(s, task, agent, ttl, auto, now);
    match s.opening(task, agent, ttl, auto, now) {
        Some(t) => {
            let n = t.next_number(task);
            let o = t.opened(task, now, scores);
            validity::lemma_opened(t, task, now, scores);
            if s.consistent() {
                lemma_consistent(s, t);
                lemma_opened_consistent(t, task, now, scores);
            }
            if t.folders.len() == 0 {
                validity::lemma_closed(o, task, n, now);
            } else {
                validity::lemma_open_claims(t, task, agent, ttl, now, scores);
                validity::lemma_claim(o, task, n, agent, ttl, now);
            }
            if s.consistent() {
                lemma_consistent(o, u);
            }
        },
        None => {
            let k = s.latest(task)->0;
            let n = s.sweeps[k].sweep;
            if s.sweeps[k].status != SweepStatus::Complete {
                let a = s.claim(task, n, agent, ttl, now).0;
                validity::lemma_claim(s, task, n, agent, ttl, now);
                validity::lemma_closed(a, task, n, now);
                if s.consistent() {
                    lemma_consistent(s, a);
                    lemma_consistent(a, a.closed(task, n, now));
                }
            }
        },
    }
}

/// `complete` keeps the state valid and right counters right.
pub proof fn law_complete_keeps_counters_right(
    s: StoreView,
    task: Seq<char>,
    path: Seq<char>,
    agent: Option<Seq<char>>,
    status: WorkStatus,
    reason: Option<Seq<char>>,
    found: Option<i64>,
    now: i64,
)
    requires
        s.wf(),
    ensures
        s.complete(task, path, agent, status, reason, found, now) matches Ok((t, _)) ==> t.wf() && (
        s.consistent() ==> t.consistent()),
{
    if let Ok((t, _)) = s.complete(task, path, agent, status, reason, found, now) {
        let rank = state::by_relevance(task, path, agent);
        tally::lemma_top(s.work, rank);
        let i = tally::top(s.work, rank)->0;
        assert(rank(s.work[i]) is Some);
        let row = s.work[i];
        if row.status.terminal() {
            validity::lemma_drift_of_board(s, s);
        } else {
            validity::lemma_covered(s, i, agent, status, reason, found, now);
        }
        let m = if row.status.terminal() {
            s
        } else {
            s.covered(i, agent, status, reason, found, now)
        };
        validity::lemma_closed(m, task, row.sweep, now);
        if s.consistent() {
            lemma_consistent(s, m);
            lemma_consistent(m, m.closed(task, row.sweep, now));
        }
    }
}

/// Collecting expired leases and clearing a task keep right counters right.
pub proof fn law_control_keeps_counters_right(s: StoreView, task: Seq<char>, all: bool, now: i64)
    requires
        s.wf(),
        s.consistent(),
    ensures
        s.swept(now).consistent(),
        s.reset(task, all).consistent(),
{
    validity::lemma_swept(s, now);
    lemma_consistent(s, s.swept(now));
    let b = s.reset(task, all);
    tally::lemma_kept(s.sweeps, state::sweep_elsewhere(task));
    assert forall|i: int| #![trigger b.sweeps[i]] 0 <= i < b.sweeps.len() implies b.drift_total(
        b.sweeps[i],
    ) == 0 && (forall|status: WorkStatus| #[trigger] b.drift(b.sweeps[i], status) == 0) by {
        let r = b.sweeps[i];
        let j = choose|j: int| 0 <= j < s.sweeps.len() && s.sweeps[j] == r;
        assert(s.drift_total(s.sweeps[j]) == 0);
        assert(state::sweep_elsewhere(task)(r));
        validity::lemma_kept_elsewhere(s, task, all, r.task, r.sweep);
        assert forall|status: WorkStatus| #[trigger] b.drift(r, status) == 0 by {
            assert(s.drift(s.sweeps[j], status) == 0);
            assert(b.live(r.task, r.sweep, status) == s.live(r.task, r.sweep, status));
        }
    }
}

/// Reconciling makes every counter right, whatever it was, changes nothing
/// else, and changes nothing where the counters are right.
pub proof fn law_reconcile_repairs(s: StoreView)
    ensures
        s.reconciled().consistent(),
        s.wf() ==> s.reconciled().wf(),
        validity::same_keys(s, s.reconciled()),
        s.reconciled().work == s.work,
        s.reconciled().tasks == s.tasks,
        s.reconciled().visits == s.visits,
        s.consistent() ==> s.reconciled() == s,
        s.reconciled().reconciled() == s.reconciled(),
{
    validity::lemma_reconciled(s);
    lemma_nothing_to_repair(s.reconciled());
    if s.consistent() {
        lemma_nothing_to_repair(s);
    }
}

proof fn lemma_nothing_to_repair(s: StoreView)
    requires
        s.consistent(),
    ensures
        s.reconciled() == s,
{
    assert forall|i: int| 0 <= i < s.sweeps.len() implies #[trigger] s.reconciled().sweeps[i]
        == s.sweeps[i] by {
        let r = s.sweeps[i];
        assert(s.drift_total(r) == 0);
        assert(s.drift(r, WorkStatus::Pending) == 0);
        assert(s.drift(r, WorkStatus::Leased) == 0);
        assert(s.drift(r, WorkStatus::Done) == 0);
        assert(s.drift(r, WorkStatus::Skipped) == 0);
    }
    assert(s.reconciled().sweeps =~= s.sweeps);
}

}
