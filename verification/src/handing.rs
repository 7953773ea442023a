//! What `next` and `sweep new` do, said of the rows themselves: which task is
//! registered, when a sweep begins and with what, and which folder is handed out.

use vstd::prelude::*;
use crate::answers::{
    has_none, is_newest, lemma_newest, ran_out, reads, same_standing, set_free,
};
use crate::command;
use crate::command::{Command, Reply};
use crate::config::{Config, StrategyConfig};
use crate::error::{ConfigIssue, Error, ErrorView};
use crate::laws;
use crate::model;
use crate::model::{NextResult, Score, Strategy, SweepStatus, WorkStatus};
use crate::planning;
use crate::rows::WorkView;
use crate::scheduler::ScoreExpr;
use crate::state;
use crate::state::{ClaimView, StoreView};
use crate::tally;
use crate::text;
use crate::validity;

verus! {

// --- registering a task ------------------------------------------------------------

/// The task is registered.
pub open spec fn is_known(s: StoreView, task: Seq<char>) -> bool {
    exists|k: int| 0 <= k < s.tasks.len() && (#[trigger] s.tasks[k]).name == task
}

/// `t` is `s` with the task registered. One that is known keeps all but the
/// strategy, and that unless another is asked for; a new one gets the strategy that
/// is asked for or else the configured one, the configured seed, and the number of
/// its newest sweep.
pub open spec fn registers(
    s: StoreView,
    t: StoreView,
    task: Seq<char>,
    cfg: StrategyConfig,
    strategy: Option<Strategy>,
    now: i64,
) -> bool {
    &&& t.folders == s.folders
    &&& t.sweeps == s.sweeps
    &&& t.work == s.work
    &&& t.visits == s.visits
    &&& forall|m: int|
        #![trigger s.tasks[m]]
        #![trigger t.tasks[m]]
        0 <= m < s.tasks.len() ==> {
            &&& t.tasks[m].name == s.tasks[m].name
            &&& t.tasks[m].seed == s.tasks[m].seed
            &&& t.tasks[m].current_sweep == s.tasks[m].current_sweep
            &&& t.tasks[m].created_at == s.tasks[m].created_at
            &&& if s.tasks[m].name == task && strategy is Some {
                t.tasks[m].strategy == strategy->0
            } else {
                t.tasks[m].strategy == s.tasks[m].strategy
            }
        }
    &&& is_known(s, task) ==> t.tasks.len() == s.tasks.len()
    &&& !is_known(s, task) ==> t.tasks.len() == s.tasks.len() + 1 && {
        let row = t.tasks[s.tasks.len() as int];
        &&& row.name == task
        &&& row.seed == cfg.seed
        &&& row.created_at == now
        &&& match strategy {
            Some(x) => row.strategy == x,
            None => row.strategy == cfg.default,
        }
        &&& has_none(s, task) ==> row.current_sweep == 0
        &&& !has_none(s, task) ==> exists|k: int| #[trigger]
            is_newest(s, task, k) && row.current_sweep == s.sweeps[k].sweep
    }
}

proof fn lemma_known(s: StoreView, task: Seq<char>)
    requires
        s.keyed(),
    ensures
        is_known(s, task) <==> s.task_at(task) is Some,
        s.task_at(task) matches Some(k) ==> 0 <= k < s.tasks.len() && s.tasks[k].name == task
            && forall|m: int|
            0 <= m < s.tasks.len() && (#[trigger] s.tasks[m]).name == task ==> m == k,
{
    validity::lemma_task_at(s, task);
}

/// Asking for a folder registers the task.
pub proof fn law_a_task_is_registered_as_asked(
    s: StoreView,
    task: Seq<char>,
    cfg: StrategyConfig,
    strategy: Option<Strategy>,
    now: i64,
)
    requires
        s.wf(),
    ensures
        registers(s, s.prepared(task, cfg, strategy, now), task, cfg, strategy, now),
{
    lemma_known(s, task);
    lemma_newest(s, task);
    let name = match strategy {
        Some(x) => x,
        None => cfg.default,
    };
    let e = s.ensured(task, name, cfg.seed, now);
    validity::lemma_ensured(s, task, name, cfg.seed, now);
    lemma_known(e, task);
    let t = s.prepared(task, cfg, strategy, now);
    if s.task_at(task) is None {
        assert(e.task_at(task) == Some(s.tasks.len() as int));
        assert(t.tasks[s.tasks.len() as int].current_sweep == s.newest(task));
    }
}

// --- beginning a sweep --------------------------------------------------------------

/// The row may be handed out: it is pending, or its lease ran out.
pub open spec fn is_free(s: StoreView, task: Seq<char>, n: i64, now: i64, i: int) -> bool {
    &&& 0 <= i < s.work.len()
    &&& s.work[i].task == task
    &&& s.work[i].sweep == n
    &&& s.work[i].status == WorkStatus::Pending || ran_out(s.work[i], now)
}

/// Nothing of the sweep in place `k` is free, and no lease of it is counted.
pub open spec fn is_drained(s: StoreView, task: Seq<char>, k: int, now: i64) -> bool {
    &&& forall|i: int| !#[trigger] is_free(s, task, s.sweeps[k].sweep, now, i)
    &&& s.sweeps[k].leased <= 0
}

/// A `next` begins a sweep: the task has none, or its newest is complete or drained
/// and it is to go on by itself.
pub open spec fn is_to_begin(s: StoreView, task: Seq<char>, auto: bool, now: i64) -> bool {
    has_none(s, task) || (auto && exists|k: int| #[trigger]
        is_newest(s, task, k) && (s.sweeps[k].status == SweepStatus::Complete || is_drained(
            s,
            task,
            k,
            now,
        )))
}

/// The sweep in place `k` was closed, and nothing else happened.
pub open spec fn closes(s: StoreView, t: StoreView, k: int, now: i64) -> bool {
    &&& t.folders == s.folders
    &&& t.tasks == s.tasks
    &&& t.work == s.work
    &&& t.visits == s.visits
    &&& t.sweeps.len() == s.sweeps.len()
    &&& forall|m: int| 0 <= m < s.sweeps.len() && m != k ==> #[trigger] t.sweeps[m] == s.sweeps[m]
    &&& ({
        let (a, b) = (s.sweeps[k], t.sweeps[k]);
        &&& b.task == a.task
        &&& b.sweep == a.sweep
        &&& b.status == SweepStatus::Complete
        &&& b.started_at == a.started_at
        &&& b.completed_at == Some(now)
        &&& b.total == a.total
        &&& b.pending == a.pending
        &&& b.leased == a.leased
        &&& b.done == a.done
        &&& b.skipped == a.skipped
    })
}

/// `t` is `s` with the task's newest sweep closed if it was active.
pub open spec fn winds_up(s: StoreView, t: StoreView, task: Seq<char>, now: i64) -> bool {
    ||| has_none(s, task) && t == s
    ||| exists|k: int| #[trigger]
        is_newest(s, task, k) && if s.sweeps[k].status == SweepStatus::Active {
            closes(s, t, k, now)
        } else {
            t == s
        }
}

/// A sweep of the task is active.
pub open spec fn has_active(s: StoreView, task: Seq<char>) -> bool {
    exists|k: int|
        0 <= k < s.sweeps.len() && (#[trigger] s.sweeps[k]).task == task && s.sweeps[k].status
            == SweepStatus::Active
}

/// The row of a new sweep's board for the folder in place `i`: pending, and with a
/// score that the scorer gave for the folder's priority.
pub open spec fn is_entry<F: Fn(ScoreExpr) -> Score>(
    s: StoreView,
    w: WorkView,
    task: Seq<char>,
    k: int,
    n: i64,
    cfg: StrategyConfig,
    now: i64,
    scorer: F,
    i: int,
) -> bool {
    &&& w.task == task
    &&& w.sweep == n
    &&& w.path == s.folders[i].stat.path
    &&& w.status == WorkStatus::Pending
    &&& w.lease_owner is None
    &&& w.lease_expires_at is None
    &&& w.visited_at is None
    &&& exists|e: ScoreExpr|
        {
            &&& #[trigger] planning::is_priority(
                s,
                task,
                s.tasks[k].strategy,
                s.tasks[k].seed,
                n,
                cfg,
                now,
                i,
                e,
            )
            &&& call_ensures(scorer, (e,), w.score)
        }
}

/// `t` is `s` with the sweep begun that follows the last of the task in place `k`:
/// it is active, all of the snapshot is on its board, pending, and counted so.
pub open spec fn begins<F: Fn(ScoreExpr) -> Score>(
    s: StoreView,
    t: StoreView,
    task: Seq<char>,
    k: int,
    cfg: StrategyConfig,
    now: i64,
    scorer: F,
) -> bool {
    &&& t.folders == s.folders
    &&& t.visits == s.visits
    &&& 0 <= k < s.tasks.len()
    &&& s.tasks[k].name == task
    &&& t.tasks.len() == s.tasks.len()
    &&& forall|m: int| 0 <= m < s.tasks.len() && m != k ==> #[trigger] t.tasks[m] == s.tasks[m]
    &&& t.tasks[k].name == task
    &&& t.tasks[k].strategy == s.tasks[k].strategy
    &&& t.tasks[k].seed == s.tasks[k].seed
    &&& t.tasks[k].created_at == s.tasks[k].created_at
    &&& t.tasks[k].current_sweep == s.tasks[k].current_sweep + 1
    &&& t.sweeps.len() == s.sweeps.len() + 1
    &&& forall|m: int| 0 <= m < s.sweeps.len() ==> #[trigger] t.sweeps[m] == s.sweeps[m]
    &&& ({
        let row = t.sweeps[s.sweeps.len() as int];
        &&& row.task == task
        &&& row.sweep == t.tasks[k].current_sweep
        &&& row.status == SweepStatus::Active
        &&& row.started_at == now
        &&& row.completed_at is None
        &&& row.total == s.folders.len()
        &&& row.pending == s.folders.len()
        &&& row.leased == 0
        &&& row.done == 0
        &&& row.skipped == 0
    })
    &&& t.work.len() == s.work.len() + s.folders.len()
    &&& forall|j: int| 0 <= j < s.work.len() ==> #[trigger] t.work[j] == s.work[j]
    &&& forall|i: int|
        0 <= i < s.folders.len() ==> is_entry(
            s,
            #[trigger] t.work[s.work.len() + i],
            task,
            k,
            t.tasks[k].current_sweep,
            cfg,
            now,
            scorer,
            i,
        )
}

/// A sweep that is opened is begun on the snapshot.
pub proof fn law_an_opened_sweep_begins_on_the_snapshot<F: Fn(ScoreExpr) -> Score>(
    s: StoreView,
    task: Seq<char>,
    cfg: StrategyConfig,
    now: i64,
    scores: Seq<Score>,
    scorer: F,
)
    requires
        s.wf(),
        s.refusal(task) is None,
        s.has_room(task, now),
        state::scored_by(scorer, s.plan(task, cfg, now), scores),
    ensures
        s.task_at(task) matches Some(k) && begins(
            s,
            s.opened(task, now, scores),
            task,
            k,
            cfg,
            now,
            scorer,
        ),
{
    lemma_known(s, task);
    let k = s.task_at(task)->0;
    planning::law_every_folder_gets_its_priority(s, task, k, cfg, now);
    let t = s.opened(task, now, scores);
    let exprs = s.plan(task, cfg, now);
    let n = t.tasks[k].current_sweep;
    assert forall|i: int| 0 <= i < s.folders.len() implies is_entry(
        s,
        #[trigger] t.work[s.work.len() + i],
        task,
        k,
        n,
        cfg,
        now,
        scorer,
        i,
    ) by {
        assert(t.work[s.work.len() + i] == s.board(task, scores)[i]);
        assert(call_ensures(scorer, (exprs[i],), scores[i]));
        assert(planning::is_priority(
            s,
            task,
            s.tasks[k].strategy,
            s.tasks[k].seed,
            n,
            cfg,
            now,
            i,
            exprs[i],
        ));
    }
}

// --- handing out ---------------------------------------------------------------------

/// The last moment of a lease that is taken now; it never ends early.
pub open spec fn is_end(e: i64, now: i64, ttl: i64) -> bool {
    if i64::MIN <= now + ttl && now + ttl <= i64::MAX {
        e == now + ttl
    } else {
        e == i64::MAX
    }
}

/// Row `i` was free and is leased to the agent until `e`. None that was free has a
/// higher score, and none further on the same one. Of the other rows those of the
/// sweep whose leases ran out are set free, and no other is changed.
pub open spec fn hands_out(
    s: StoreView,
    t: StoreView,
    task: Seq<char>,
    n: i64,
    agent: Option<Seq<char>>,
    e: i64,
    now: i64,
    i: int,
) -> bool {
    &&& is_free(s, task, n, now, i)
    &&& forall|j: int| #[trigger]
        is_free(s, task, n, now, j) ==> s.work[j].score.key < s.work[i].score.key || (
        s.work[j].score.key == s.work[i].score.key && j <= i)
    &&& t.work.len() == s.work.len()
    &&& ({
        let (a, b) = (s.work[i], t.work[i]);
        &&& b.task == a.task
        &&& b.sweep == a.sweep
        &&& b.path == a.path
        &&& b.score == a.score
        &&& b.visited_at == a.visited_at
        &&& b.status == WorkStatus::Leased
        &&& b.lease_owner == agent
        &&& b.lease_expires_at == Some(e)
    })
    &&& forall|j: int|
        #![trigger s.work[j]]
        #![trigger t.work[j]]
        0 <= j < s.work.len() && j != i ==> if s.work[j].task == task && s.work[j].sweep == n
            && ran_out(s.work[j], now) {
            set_free(s.work[j], t.work[j])
        } else {
            t.work[j] == s.work[j]
        }
}

/// The counters of the sweep in place `k` moved by the leases that ran out and the
/// one that was taken.
pub open spec fn counts_lease(s: StoreView, t: StoreView, k: int, now: i64) -> bool {
    let (a, b) = (s.sweeps[k], t.sweeps[k]);
    let n = s.work.filter(
        |w: WorkView| w.task == a.task && w.sweep == a.sweep && ran_out(w, now),
    ).len();
    &&& t.folders == s.folders
    &&& t.tasks == s.tasks
    &&& t.visits == s.visits
    &&& t.sweeps.len() == s.sweeps.len()
    &&& forall|m: int| 0 <= m < s.sweeps.len() && m != k ==> #[trigger] t.sweeps[m] == s.sweeps[m]
    &&& same_standing(a, b)
    &&& b.total == a.total
    &&& b.done == a.done
    &&& b.skipped == a.skipped
    &&& b.pending == a.pending + n - 1
    &&& b.leased == a.leased - n + 1
}

/// The answer is that the sweep in place `k` is complete, with what is done of it,
/// and with a hint if it had no folders at all.
pub open spec fn says_complete(t: StoreView, task: Seq<char>, k: int, v: NextResult) -> bool {
    v matches NextResult::SweepComplete { task: name, sweep, covered, total, note } && {
        &&& name@ == task
        &&& sweep == t.sweeps[k].sweep
        &&& covered == t.sweeps[k].done
        &&& total == t.sweeps[k].total
        &&& total != 0 ==> note is None
        &&& total == 0 ==> (note matches Some(m) && m@
            == "no folders registered for this sweep - did you run `trail init`?"@)
    }
}

/// The answer is that the folder of row `i` is leased to the agent.
pub open spec fn says_claimed(
    s: StoreView,
    t: StoreView,
    task: Seq<char>,
    k: int,
    agent: Option<Seq<char>>,
    ttl: i64,
    now: i64,
    v: NextResult,
    i: int,
) -> bool {
    v matches NextResult::Claimed {
        task: name,
        sweep,
        path,
        score,
        lease_expires_at,
        remaining,
    } && {
        &&& name@ == task
        &&& sweep == s.sweeps[k].sweep
        &&& path@ == s.work[i].path
        &&& score == s.work[i].score
        &&& is_end(lease_expires_at, now, ttl)
        &&& remaining == t.sweeps[k].pending
        &&& hands_out(s, t, task, sweep, agent, lease_expires_at, now, i)
        &&& counts_lease(s, t, k, now)
    }
}

/// What `next` makes of the sweep in place `k`. A complete one is reported. Of an
/// active one a free folder is handed out; if none is free, the leases that are
/// counted are waited for; if there are none either, the sweep is closed.
pub open spec fn tends(
    s: StoreView,
    t: StoreView,
    task: Seq<char>,
    k: int,
    agent: Option<Seq<char>>,
    ttl: i64,
    now: i64,
    v: NextResult,
) -> bool {
    let n = s.sweeps[k].sweep;
    if s.sweeps[k].status == SweepStatus::Complete {
        t == s && says_complete(t, task, k, v)
    } else if exists|i: int| is_free(s, task, n, now, i) {
        exists|i: int| #[trigger] says_claimed(s, t, task, k, agent, ttl, now, v, i)
    } else if s.sweeps[k].leased > 0 {
        t == s && (v matches NextResult::NoneAvailable { task: name, sweep, leased_outstanding }
            && name@ == task && sweep == n && leased_outstanding == s.sweeps[k].leased)
    } else {
        closes(s, t, k, now) && says_complete(t, task, k, v)
    }
}

/// Of a sweep of which nothing is free a claim changes nothing.
proof fn lemma_idle(s: StoreView, task: Seq<char>, n: i64, now: i64)
    requires
        s.wf(),
        s.sweep_at(task, n) is Some,
        forall|i: int| !#[trigger] is_free(s, task, n, now, i),
    ensures
        s.reclaimed(task, n, now) == s,
        tally::top(s.work, state::by_score(task, n)) is None,
{
    let k = s.sweep_at(task, n)->0;
    validity::lemma_sweep_at(s, task, n);
    let due = state::due(task, n, now);
    assert forall|i: int| 0 <= i < s.work.len() implies !due(#[trigger] s.work[i]) by {
        assert(!is_free(s, task, n, now, i));
    }
    tally::lemma_count_zero(s.work, due);
    let t = s.reclaimed(task, n, now);
    assert forall|i: int| 0 <= i < s.work.len() implies #[trigger] t.work[i] == s.work[i] by {
        assert(!due(s.work[i]));
    }
    assert(t.work =~= s.work);
    assert(t.sweeps[k] == s.sweeps[k]);
    assert(t.sweeps =~= s.sweeps);
    let rank = state::by_score(task, n);
    tally::lemma_top(s.work, rank);
    assert forall|j: int| 0 <= j < s.work.len() implies rank(#[trigger] s.work[j]) is None by {
        assert(!is_free(s, task, n, now, j));
    }
}

/// A claim where something is free.
proof fn lemma_busy(
    s: StoreView,
    task: Seq<char>,
    n: i64,
    agent: Option<Seq<char>>,
    ttl: i64,
    now: i64,
) -> (i: int)
    requires
        s.wf(),
        s.sweep_at(task, n) is Some,
        exists|i: int| is_free(s, task, n, now, i),
    ensures
        ({
            let (t, c) = s.claim(task, n, agent, ttl, now);
            let k = s.sweep_at(task, n)->0;
            &&& c matches ClaimView::Leased { path, score, expires, remaining } && {
                &&& path == s.work[i].path
                &&& score == s.work[i].score
                &&& is_end(expires, now, ttl)
                &&& remaining == t.sweeps[k].pending
                &&& hands_out(s, t, task, n, agent, expires, now, i)
                &&& counts_lease(s, t, k, now)
            }
        }),
{
    let k = s.sweep_at(task, n)->0;
    validity::lemma_sweep_at(s, task, n);
    validity::lemma_reclaimed(s, task, n, now);
    let m = s.reclaimed(task, n, now);
    let rank = state::by_score(task, n);
    tally::lemma_top(m.work, rank);
    let f = choose|f: int| is_free(s, task, n, now, f);
    assert(rank(m.work[f]) is Some);
    let i = tally::top(m.work, rank)->0;
    let (t, c) = s.claim(task, n, agent, ttl, now);
    assert(is_free(s, task, n, now, i));
    assert forall|j: int| #[trigger] is_free(s, task, n, now, j) implies s.work[j].score.key
        < s.work[i].score.key || (s.work[j].score.key == s.work[i].score.key && j <= i) by {
        assert(rank(m.work[j]) is Some);
    }
    let e = state::lease_end(now, ttl);
    assert(t.work[i] == m.work[i].lent(agent, e));
    assert forall|j: int|
        #![trigger s.work[j]]
        #![trigger t.work[j]]
        0 <= j < s.work.len() && j != i implies if s.work[j].task == task && s.work[j].sweep == n
        && ran_out(s.work[j], now) {
        set_free(s.work[j], t.work[j])
    } else {
        t.work[j] == s.work[j]
    } by {
        assert(t.work[j] == m.work[j]);
    }
    assert(hands_out(s, t, task, n, agent, e, now, i));
    let a = s.sweeps[k];
    let here = |w: WorkView| w.task == a.task && w.sweep == a.sweep && ran_out(w, now);
    assert(state::due(task, n, now) =~= here);
    tally::lemma_filter_counts(s.work, here);
    assert(m.sweep_at(task, n) == Some(k));
    assert(t.sweeps[k] == m.sweeps[k].moved(WorkStatus::Pending, WorkStatus::Leased, 1));
    assert(counts_lease(s, t, k, now));
    i
}

/// What `next` makes of a sweep that it does not have to open.
proof fn lemma_tends(
    s: StoreView,
    t: StoreView,
    task: Seq<char>,
    k: int,
    agent: Option<Seq<char>>,
    ttl: i64,
    now: i64,
    v: NextResult,
)
    requires
        s.wf(),
        0 <= k < s.sweeps.len(),
        s.sweeps[k].task == task,
        ({
            let n = s.sweeps[k].sweep;
            if s.sweeps[k].status == SweepStatus::Complete {
                (t, v@) == (s, s.summary(task, n))
            } else {
                let (u, c) = s.claim(task, n, agent, ttl, now);
                (t, v@) == u.settled(task, n, c, now)
            }
        }),
    ensures
        tends(s, t, task, k, agent, ttl, now, v),
{
    let n = s.sweeps[k].sweep;
    validity::lemma_sweep_at(s, task, n);
    assert(s.sweep_at(task, n) == Some(k));
    if s.sweeps[k].status == SweepStatus::Complete {
        lemma_says_complete(s, task, k, v);
    } else if exists|i: int| is_free(s, task, n, now, i) {
        let i = lemma_busy(s, task, n, agent, ttl, now);
        assert(says_claimed(s, t, task, k, agent, ttl, now, v, i));
    } else {
        lemma_idle(s, task, n, now);
        let (u, c) = s.claim(task, n, agent, ttl, now);
        assert(u == s);
        if s.sweeps[k].leased <= 0 {
            validity::lemma_closed(s, task, n, now);
            assert(closes(s, t, k, now));
            lemma_says_complete(t, task, k, v);
        }
    }
}

proof fn lemma_says_complete(t: StoreView, task: Seq<char>, k: int, v: NextResult)
    requires
        0 <= k < t.sweeps.len(),
        t.sweep_at(task, t.sweeps[k].sweep) == Some(k),
        v@ == t.summary(task, t.sweeps[k].sweep),
    ensures
        says_complete(t, task, k, v),
{
    assert(v is SweepComplete);
    assert(v@ is SweepComplete);
}

/// When a `next` begins a sweep, and what it has done until then.
proof fn lemma_opening(
    s: StoreView,
    task: Seq<char>,
    agent: Option<Seq<char>>,
    ttl: i64,
    auto: bool,
    now: i64,
)
    requires
        s.wf(),
    ensures
        match s.opening(task, agent, ttl, auto, now) {
            Some(t) => is_to_begin(s, task, auto, now) && winds_up(s, t, task, now) && t.wf(),
            None => !is_to_begin(s, task, auto, now),
        },
{
    lemma_newest(s, task);
    if let Some(k) = s.latest(task) {
        let n = s.sweeps[k].sweep;
        validity::lemma_latest(s, task);
        assert forall|j: int| #[trigger] is_newest(s, task, j) implies j == k by {
            assert(s.sweeps[j].sweep == s.sweeps[k].sweep);
        }
        assert(s.sweep_at(task, n) == Some(k));
        if s.sweeps[k].status == SweepStatus::Active {
            if exists|i: int| is_free(s, task, n, now, i) {
                let i = lemma_busy(s, task, n, agent, ttl, now);
                assert(!is_drained(s, task, k, now));
            } else {
                lemma_idle(s, task, n, now);
                let (u, c) = s.claim(task, n, agent, ttl, now);
                assert(u == s);
                if s.sweeps[k].leased <= 0 {
                    assert(is_drained(s, task, k, now));
                    validity::lemma_closed(s, task, n, now);
                    assert(closes(s, s.closed(task, n, now), k, now));
                } else {
                    assert(!is_drained(s, task, k, now));
                }
            }
        }
    } else {
        assert forall|j: int| !#[trigger] is_newest(s, task, j) by {}
    }
}

/// Where none of a task's sweeps is active, one may be opened.
pub proof fn lemma_has_active(s: StoreView, task: Seq<char>)
    requires
        s.task_at(task) is Some,
    ensures
        has_active(s, task) <==> s.refusal(task) is Some,
{
    let rank = state::by_newest_active(task);
    tally::lemma_top(s.sweeps, rank);
    if has_active(s, task) {
        let k = choose|k: int|
            0 <= k < s.sweeps.len() && (#[trigger] s.sweeps[k]).task == task && s.sweeps[k].status
                == SweepStatus::Active;
        assert(rank(s.sweeps[k]) is Some);
    } else if let Some(k) = s.active(task) {
        assert(rank(s.sweeps[k]) is Some);
    }
}

/// What a `next` does: it registers the task; where it is to begin a sweep it winds
/// up the newest one and begins the following, unless an older one is active; and
/// it tends to the sweep that is then the task's.
pub open spec fn proceeds<F: Fn(ScoreExpr) -> Score>(
    s: StoreView,
    t: StoreView,
    r: Result<Reply, Error>,
    task: Seq<char>,
    cfg: StrategyConfig,
    agent: Option<Seq<char>>,
    ttl: i64,
    auto: bool,
    now: i64,
    scorer: F,
) -> bool {
    if !is_to_begin(s, task, auto, now) {
        r matches Ok(Reply::Next(v)) && exists|k: int| #[trigger]
            is_newest(s, task, k) && tends(s, t, task, k, agent, ttl, now, v)
    } else {
        exists|u: StoreView| #[trigger]
            winds_up(s, u, task, now) && if has_active(u, task) {
                t == u && (r matches Err(Error::Other(m)) && m@
                    == "next: too many sweep transitions for task "@ + text::quoted_text(task))
            } else {
                r matches Ok(Reply::Next(v)) && exists|b: StoreView, k: int| #[trigger]
                    begins(u, b, task, k, cfg, now, scorer) && tends(
                        b,
                        t,
                        task,
                        u.sweeps.len() as int,
                        agent,
                        ttl,
                        now,
                        v,
                    )
            }
    }
}

/// `next` hands out the free folder of the highest priority, with its score, the
/// end of its lease and what remains; or says that all is leased, or that the sweep
/// is complete. A task without a name is refused, and nothing happens.
pub proof fn law_next_hands_out_the_best_free_folder<F: Fn(ScoreExpr) -> Score>(
    s: StoreView,
    t: StoreView,
    r: Result<Reply, Error>,
    task: String,
    agent: Option<String>,
    strategy: Option<Strategy>,
    auto_sweep: bool,
    cfg: Config,
    now: i64,
    scorer: F,
)
    requires
        s.wf(),
        command::feasible(s, Command::Next { task, agent, strategy, auto_sweep }, cfg, now),
        command::performs(
            s,
            t,
            r,
            Command::Next { task, agent, strategy, auto_sweep },
            cfg,
            now,
            scorer,
        ),
    ensures
        text::is_blank(task@) ==> t == s && (r matches Err(Error::Config(ConfigIssue::EmptyTask))),
        !text::is_blank(task@) ==> exists|p: StoreView| #[trigger]
            registers(s, p, task@, cfg.strategy, strategy, now) && proceeds(
                p,
                t,
                r,
                task@,
                cfg.strategy,
                match agent {
                    Some(a) => Some(a@),
                    None => None,
                },
                cfg.lease.ttl_secs,
                auto_sweep,
                now,
                scorer,
            ),
{
    if !text::is_blank(task@) {
        let who = model::owned_text(agent);
        let ttl = cfg.lease.ttl_secs;
        let p = s.prepared(task@, cfg.strategy, strategy, now);
        law_a_task_is_registered_as_asked(s, task@, cfg.strategy, strategy, now);
        command::lemma_prepared(s, task@, cfg, strategy, now);
        lemma_proceeds(p, t, r, task@, cfg.strategy, who, ttl, auto_sweep, now, scorer);
    } else {
        assert(r->Err_0@ == ErrorView::Config(ConfigIssue::EmptyTask));
    }
}

proof fn lemma_proceeds<F: Fn(ScoreExpr) -> Score>(
    s: StoreView,
    t: StoreView,
    r: Result<Reply, Error>,
    task: Seq<char>,
    cfg: StrategyConfig,
    agent: Option<Seq<char>>,
    ttl: i64,
    auto: bool,
    now: i64,
    scorer: F,
)
    requires
        s.wf(),
        s.task_at(task) is Some,
        s.opening(task, agent, ttl, auto, now) matches Some(u) ==> u.has_room(task, now),
        if s.stuck(task, agent, ttl, auto, now) {
            &&& s.opening(task, agent, ttl, auto, now) == Some(t)
            &&& r matches Err(e) && e@ == ErrorView::Other(state::no_way_on(task))
        } else {
            r matches Ok(Reply::Next(v)) && state::advances(
                s,
                t,
                v@,
                task,
                cfg,
                agent,
                ttl,
                auto,
                now,
                scorer,
            )
        },
    ensures
        proceeds(s, t, r, task, cfg, agent, ttl, auto, now, scorer),
{
    lemma_opening(s, task, agent, ttl, auto, now);
    lemma_newest(s, task);
    laws::lemma_opening(s, task, agent, ttl, auto, now);
    match s.opening(task, agent, ttl, auto, now) {
        None => {
            let v = r->Ok_0->Next_0;
            let k = s.latest(task)->0;
            lemma_tends(s, t, task, k, agent, ttl, now, v);
        },
        Some(u) => {
            lemma_has_active(u, task);
            if u.refusal(task) is None {
                let v = r->Ok_0->Next_0;
                let scores = choose|scores: Seq<Score>| #[trigger]
                    s.next_step(task, agent, ttl, auto, now, scores) == (t, v@)
                        && state::scored_by(scorer, u.plan(task, cfg, now), scores);
                law_an_opened_sweep_begins_on_the_snapshot(u, task, cfg, now, scores, scorer);
                validity::lemma_opened(u, task, now, scores);
                let b = u.opened(task, now, scores);
                let j = u.sweeps.len() as int;
                lemma_first(u, t, task, agent, ttl, now, scores, v);
                assert(tends(b, t, task, j, agent, ttl, now, v));
            }
        },
    }
}

/// The first claim on a sweep that was just opened tends to it.
proof fn lemma_first(
    s: StoreView,
    t: StoreView,
    task: Seq<char>,
    agent: Option<Seq<char>>,
    ttl: i64,
    now: i64,
    scores: Seq<Score>,
    v: NextResult,
)
    requires
        s.wf(),
        s.refusal(task) is None,
        s.has_room(task, now),
        (t, v@) == s.open_and_claim(task, agent, ttl, now, scores),
    ensures
        tends(
            s.opened(task, now, scores),
            t,
            task,
            s.sweeps.len() as int,
            agent,
            ttl,
            now,
            v,
        ),
{
    let b = s.opened(task, now, scores);
    let k = s.sweeps.len() as int;
    let n = s.next_number(task);
    validity::lemma_opened(s, task, now, scores);
    if s.folders.len() > 0 {
        lemma_tends(b, t, task, k, agent, ttl, now, v);
    } else {
        assert forall|i: int| !#[trigger] is_free(b, task, n, now, i) by {
            if is_free(b, task, n, now, i) {
                assert(b.work[i] == s.work[i]);
                assert(s.placed(s.work[i]));
            }
        }
        lemma_idle(b, task, n, now);
        let (u, c) = b.claim(task, n, agent, ttl, now);
        assert(u == b && c is Empty);
        lemma_tends(b, t, task, k, agent, ttl, now, v);
    }
}

/// What `next` says of a claimed folder is so: its row in that sweep is leased to
/// the caller, with the score that is named, until the moment that is named, which
/// is when the time to live is over.
pub proof fn law_a_claimed_folder_is_leased_to_the_caller<F: Fn(ScoreExpr) -> Score>(
    s: StoreView,
    t: StoreView,
    r: Result<Reply, Error>,
    task: String,
    agent: Option<String>,
    strategy: Option<Strategy>,
    auto_sweep: bool,
    cfg: Config,
    now: i64,
    scorer: F,
)
    requires
        s.wf(),
        command::feasible(s, Command::Next { task, agent, strategy, auto_sweep }, cfg, now),
        command::performs(
            s,
            t,
            r,
            Command::Next { task, agent, strategy, auto_sweep },
            cfg,
            now,
            scorer,
        ),
    ensures
        r matches Ok(Reply::Next(NextResult::Claimed {
            task: name,
            sweep,
            path,
            score,
            lease_expires_at,
            remaining,
        })) ==> {
            &&& name@ == task@
            &&& is_end(lease_expires_at, now, cfg.lease.ttl_secs)
            &&& exists|i: int|
                {
                    &&& 0 <= i < t.work.len()
                    &&& (#[trigger] t.work[i]).task == task@
                    &&& t.work[i].sweep == sweep
                    &&& t.work[i].path == path@
                    &&& t.work[i].status == WorkStatus::Leased
                    &&& reads(agent, t.work[i].lease_owner)
                    &&& t.work[i].lease_expires_at == Some(lease_expires_at)
                    &&& t.work[i].score == score
                }
            &&& t.visits == s.visits
            &&& t.folders == s.folders
        },
{
    if !text::is_blank(task@) {
        law_next_hands_out_the_best_free_folder(
            s,
            t,
            r,
            task,
            agent,
            strategy,
            auto_sweep,
            cfg,
            now,
            scorer,
        );
        let who = model::owned_text(agent);
        let ttl = cfg.lease.ttl_secs;
        let p = choose|p: StoreView| #[trigger]
            registers(s, p, task@, cfg.strategy, strategy, now) && proceeds(
                p,
                t,
                r,
                task@,
                cfg.strategy,
                who,
                ttl,
                auto_sweep,
                now,
                scorer,
            );
        if let Ok(Reply::Next(v)) = r {
            if v is Claimed {
                if !is_to_begin(p, task@, auto_sweep, now) {
                    let k = choose|k: int| #[trigger]
                        is_newest(p, task@, k) && tends(p, t, task@, k, who, ttl, now, v);
                    let i = choose|i: int| #[trigger]
                        says_claimed(p, t, task@, k, who, ttl, now, v, i);
                    assert(t.work[i].task == task@);
                } else {
                    let u = choose|u: StoreView| #[trigger]
                        winds_up(p, u, task@, now) && !has_active(u, task@) && exists|
                            b: StoreView,
                            k: int,
                        | #[trigger]
                            begins(u, b, task@, k, cfg.strategy, now, scorer) && tends(
                                b,
                                t,
                                task@,
                                u.sweeps.len() as int,
                                who,
                                ttl,
                                now,
                                v,
                            );
                    let (b, k) = choose|b: StoreView, k: int| #[trigger]
                        begins(u, b, task@, k, cfg.strategy, now, scorer) && tends(
                            b,
                            t,
                            task@,
                            u.sweeps.len() as int,
                            who,
                            ttl,
                            now,
                            v,
                        );
                    let i = choose|i: int| #[trigger]
                        says_claimed(b, t, task@, u.sweeps.len() as int, who, ttl, now, v, i);
                    assert(t.work[i].task == task@);
                }
            }
        }
    }
}

/// Whether a sweep would be begun can be told beforehand, from the rows.
pub proof fn law_when_a_sweep_is_begun(
    s: StoreView,
    task: Seq<char>,
    agent: Option<Seq<char>>,
    ttl: i64,
    auto: bool,
    now: i64,
)
    requires
        s.wf(),
    ensures
        s.opening(task, agent, ttl, auto, now) is Some <==> is_to_begin(s, task, auto, now),
        s.active(task) is Some <==> has_active(s, task),
        !is_known(s, task) ==> s.refusal(task) == Some(
            ErrorView::Other("task "@ + text::quoted_text(task) + " does not exist"@),
        ),
{
    lemma_known(s, task);
    lemma_opening(s, task, agent, ttl, auto, now);
    let rank = state::by_newest_active(task);
    tally::lemma_top(s.sweeps, rank);
    if has_active(s, task) {
        let k = choose|k: int|
            0 <= k < s.sweeps.len() && (#[trigger] s.sweeps[k]).task == task && s.sweeps[k].status
                == SweepStatus::Active;
        assert(rank(s.sweeps[k]) is Some);
    } else if let Some(k) = s.active(task) {
        assert(rank(s.sweeps[k]) is Some);
    }
}

/// There is room for another sweep of a task as long as its number and its rows can
/// be counted, that number is free, and the age of every visit can be told.
pub proof fn law_room_is_a_matter_of_numbers(s: StoreView, task: Seq<char>, now: i64, n: i64)
    requires
        s.keyed(),
        forall|k: int|
            0 <= k < s.tasks.len() && (#[trigger] s.tasks[k]).name == task ==> n
                == s.tasks[k].current_sweep,
        !is_known(s, task) ==> (if has_none(s, task) {
            n == 0
        } else {
            exists|k: int| #[trigger] is_newest(s, task, k) && n == s.sweeps[k].sweep
        }),
    ensures
        s.has_room(task, now) <==> {
            &&& s.work.len() + s.folders.len() <= 0x1000_0000_0000_0000
            &&& s.sweeps.len() < 0x1000_0000_0000_0000
            &&& n < i64::MAX
            &&& forall|i: int|
                0 <= i < s.sweeps.len() && (#[trigger] s.sweeps[i]).task == task
                    ==> s.sweeps[i].sweep != n + 1
            &&& forall|j: int|
                0 <= j < s.visits.len() && (#[trigger] s.visits[j]).task == task ==> i64::MIN
                    <= now - s.visits[j].visited_at <= i64::MAX
        },
{
    lemma_known(s, task);
    lemma_newest(s, task);
    assert(s.current(task) == n);
}

/// Nothing stands in the way of reading, whatever the rows are, and nothing in that of
/// clearing a task or rebuilding counters but more rows than can be counted. In a
/// valid state nothing stands in the way of covering and collecting; of a snapshot
/// only a survey that cannot be summed up; and of `next` and `sweep new` besides
/// only that there is no room for a sweep that they are to begin.
pub proof fn law_little_stands_in_the_way(s: StoreView, cmd: Command, cfg: Config, now: i64)
    requires
        s.keyed(),
    ensures
        ({
            let o = command::obstacle(s, cmd, cfg, now);
            match cmd {
                Command::Status { .. } => o is None,
                Command::List { .. } => o is None,
                Command::SweepShow { .. } => o is None,
                Command::Reset { .. } => s.sweeps.len() <= 0x1000_0000_0000_0000 ==> o is None,
                Command::Gc { reconcile } => {
                    &&& reconcile && s.work.len() <= 0x1000_0000_0000_0000 ==> o is None
                    &&& s.wf() ==> o is None
                },
                Command::Done { .. } => s.wf() ==> o is None,
                Command::Skip { .. } => s.wf() ==> o is None,
                Command::Init { survey, .. } => o == if survey.modest() {
                    None
                } else {
                    Some("the tree is too large"@)
                },
                Command::Next { task, auto_sweep, .. } => s.wf() ==> o == if !text::is_blank(task@)
                    && is_to_begin(s, task@, auto_sweep, now) && !s.has_room(task@, now) {
                    Some("there is no room for another sweep"@)
                } else {
                    None
                },
                Command::SweepNew { task, rescan } => s.wf() ==> o == if rescan matches Some(survey)
                    && !(survey.modest() && s.work.len() + survey.files@.len()
                    <= 0x1000_0000_0000_0000) {
                    Some("the tree is too large"@)
                } else if !text::is_blank(task@) && !has_active(s, task@) && !s.has_room(
                    task@,
                    now,
                ) {
                    Some("there is no room for another sweep"@)
                } else {
                    None
                },
            }
        }),
        command::obstacle(s, cmd, cfg, now) matches Some(m) ==> m == "the state is damaged"@ || m
            == "the tree is too large"@ || m == "there is no room for another sweep"@,
{
    if s.wf() {
        match cmd {
            Command::Next { task, agent, strategy, auto_sweep } => {
                let who = model::owned_text(agent);
                let ttl = cfg.lease.ttl_secs;
                law_when_a_sweep_is_begun(s, task@, who, ttl, auto_sweep, now);
                command::lemma_room_same(s, task@, cfg, strategy, who, ttl, auto_sweep, now);
            },
            Command::SweepNew { task, rescan } => {
                law_when_a_sweep_is_begun(s, task@, None, 0, false, now);
                command::lemma_room_same(s, task@, cfg, None, None, 0, false, now);
            },
            _ => {},
        }
    }
}

}
