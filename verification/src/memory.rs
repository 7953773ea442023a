//! What a task remembers: the last visit and the last report of each path.

use vstd::prelude::*;
use crate::config::StrategyConfig;
use crate::laws;
use crate::model::{Strategy, WorkStatus};
use crate::scheduler;
use crate::state;
use crate::state::{ClaimView, StoreView};
use crate::tally;
use crate::tally::Rank;
use crate::validity;

verus! {

/// An item without a rank does not change which ranks first.
proof fn lemma_unranked<T>(s: Seq<T>, x: T, rank: spec_fn(T) -> Rank)
    requires
        rank(x) is None,
    ensures
        tally::top(s.push(x), rank) == tally::top(s, rank),
{
    let p = s.push(x);
    tally::lemma_top(s, rank);
    tally::lemma_top(p, rank);
    match tally::top(s, rank) {
        Some(i) => {
            assert(tally::is_top(s, rank, i));
            assert(p[i] == s[i]);
            assert forall|j: int|
                0 <= j < p.len() && rank(#[trigger] p[j]) is Some && j != i implies if j < i {
                !tally::above(rank(p[j])->0, rank(p[i])->0)
            } else {
                tally::above(rank(p[i])->0, rank(p[j])->0)
            } by {
                assert(j < s.len());
                assert(p[j] == s[j]);
            }
            assert(tally::is_top(p, rank, i));
            tally::lemma_top_unique(p, rank, i);
        },
        None => {
            assert forall|j: int| 0 <= j < p.len() implies rank(#[trigger] p[j]) is None by {
                if j < s.len() {
                    assert(p[j] == s[j]);
                }
            }
        },
    }
}

/// An item that none ranks above is first once it is last.
proof fn lemma_last_is_first<T>(s: Seq<T>, x: T, rank: spec_fn(T) -> Rank)
    requires
        rank(x) is Some,
        forall|j: int|
            0 <= j < s.len() && rank(#[trigger] s[j]) is Some ==> !tally::above(
                rank(s[j])->0,
                rank(x)->0,
            ),
    ensures
        tally::top(s.push(x), rank) == Some(s.len() as int),
{
    let p = s.push(x);
    let n = s.len() as int;
    assert forall|j: int| 0 <= j < p.len() && rank(#[trigger] p[j]) is Some && j != n implies if j
        < n {
        !tally::above(rank(p[j])->0, rank(p[n])->0)
    } else {
        tally::above(rank(p[n])->0, rank(p[j])->0)
    } by {
        assert(p[j] == s[j]);
    }
    assert(tally::is_top(p, rank, n));
    tally::lemma_top_unique(p, rank, n);
}

/// A visit under one task changes nothing of what another remembers, nor of what
/// the task remembers of other paths.
pub proof fn law_memory_is_per_task_and_path(
    s: StoreView,
    i: int,
    agent: Option<Seq<char>>,
    status: WorkStatus,
    reason: Option<Seq<char>>,
    found: Option<i64>,
    now: i64,
    task: Seq<char>,
    path: Seq<char>,
    half_life: u64,
    later: i64,
)
    requires
        s.wf(),
        0 <= i < s.work.len(),
        task != s.work[i].task || path != s.work[i].path,
    ensures
        ({
            let t = s.covered(i, agent, status, reason, found, now);
            &&& t.recency(task, path, half_life, later) == s.recency(task, path, half_life, later)
            &&& t.last_outcome(task, path) == s.last_outcome(task, path)
        }),
{
    let t = s.covered(i, agent, status, reason, found, now);
    let v = t.visits.last();
    tally::lemma_top(s.visits, state::by_visit(task, path));
    tally::lemma_top(s.visits, state::by_report(task, path));
    lemma_unranked(s.visits, v, state::by_visit(task, path));
    lemma_unranked(s.visits, v, state::by_report(task, path));
}

/// A visit that is not earlier than those before is the one that its task
/// remembers: the path's staleness counts from it, and its report, if it has
/// one, is the path's outcome; without a report the earlier one stays.
pub proof fn law_the_last_visit_is_remembered(
    s: StoreView,
    i: int,
    agent: Option<Seq<char>>,
    status: WorkStatus,
    reason: Option<Seq<char>>,
    found: Option<i64>,
    now: i64,
    half_life: u64,
    later: i64,
)
    requires
        s.wf(),
        0 <= i < s.work.len(),
        forall|j: int|
            0 <= j < s.visits.len() && (#[trigger] s.visits[j]).task == s.work[i].task
                && s.visits[j].path == s.work[i].path ==> s.visits[j].visited_at <= now,
    ensures
        ({
            let t = s.covered(i, agent, status, reason, found, now);
            let (task, path) = (s.work[i].task, s.work[i].path);
            &&& t.recency(task, path, half_life, later) == scheduler::recency_of(
                (later - now) as i64,
                half_life,
            )
            &&& found is Some ==> t.last_outcome(task, path) == found
            &&& found is None ==> t.last_outcome(task, path) == s.last_outcome(task, path)
        }),
{
    let t = s.covered(i, agent, status, reason, found, now);
    let (task, path) = (s.work[i].task, s.work[i].path);
    let v = t.visits.last();
    let visits = state::by_visit(task, path);
    let reports = state::by_report(task, path);
    lemma_last_is_first(s.visits, v, visits);
    if found is Some {
        lemma_last_is_first(s.visits, v, reports);
    } else {
        tally::lemma_top(s.visits, reports);
        lemma_unranked(s.visits, v, reports);
    }
}

/// A path that was never visited under a task is maximally stale, and no other
/// is.
pub proof fn law_never_visited_is_maximally_stale(
    s: StoreView,
    task: Seq<char>,
    path: Seq<char>,
    half_life: u64,
    now: i64,
)
    ensures
        s.recency(task, path, half_life, now) is Never <==> forall|j: int|
            0 <= j < s.visits.len() ==> !((#[trigger] s.visits[j]).task == task
                && s.visits[j].path == path),
{
    let rank = state::by_visit(task, path);
    tally::lemma_top(s.visits, rank);
    if s.recency(task, path, half_life, now) is Never {
        assert forall|j: int| 0 <= j < s.visits.len() implies !((#[trigger] s.visits[j]).task
            == task && s.visits[j].path == path) by {
            assert(rank(s.visits[j]) is None);
        }
    } else {
        let j = tally::top(s.visits, rank)->0;
        assert(rank(s.visits[j]) is Some);
    }
}

/// A strategy that `next` is asked for is the task's from then on; without one a
/// task that is known keeps its own, and a new one gets the configured default.
pub proof fn law_a_chosen_strategy_sticks(
    s: StoreView,
    task: Seq<char>,
    cfg: StrategyConfig,
    strategy: Option<Strategy>,
    now: i64,
)
    requires
        s.wf(),
    ensures
        ({
            let t = s.prepared(task, cfg, strategy, now);
            &&& t.wf()
            &&& t.task_at(task) matches Some(k) && t.tasks[k].strategy == match (
                strategy,
                s.task_at(task),
            ) {
                (Some(x), _) => x,
                (None, Some(j)) => s.tasks[j].strategy,
                (None, None) => cfg.default,
            }
            &&& laws::respects(s, t, task)
            &&& strategy is None && s.task_at(task) is Some ==> t == s
        }),
{
    let name = match strategy {
        Some(n) => n,
        None => cfg.default,
    };
    let e = s.ensured(task, name, cfg.seed, now);
    validity::lemma_task_at(s, task);
    validity::lemma_ensured(s, task, name, cfg.seed, now);
    validity::lemma_task_at(e, task);
    validity::lemma_with_strategy(e, task, name);
}

/// Folders are handed out in descending order of their scores, as long as no
/// lease runs out in between.
pub proof fn law_scores_descend(
    s: StoreView,
    task: Seq<char>,
    sweep: i64,
    first: Option<Seq<char>>,
    second: Option<Seq<char>>,
    ttl: i64,
    now: i64,
    later: i64,
)
    requires
        s.wf(),
        s.sweep_at(task, sweep) is Some,
        ({
            let t = s.claim(task, sweep, first, ttl, now).0;
            forall|i: int|
                0 <= i < t.work.len() && (#[trigger] t.work[i]).belongs(task, sweep)
                    ==> !t.work[i].expired(later)
        }),
    ensures
        ({
            let (t, c) = s.claim(task, sweep, first, ttl, now);
            let d = t.claim(task, sweep, second, ttl, later).1;
            c matches ClaimView::Leased { score: a, .. } ==> d matches ClaimView::Leased {
                score: b,
                ..
            } ==> a.key >= b.key
        }),
{
    let (t, c) = s.claim(task, sweep, first, ttl, now);
    let (u, d) = t.claim(task, sweep, second, ttl, later);
    validity::lemma_claim(s, task, sweep, first, ttl, now);
    laws::law_claim_takes_one(s, task, sweep, first, ttl, now);
    laws::law_highest_score_first(s, task, sweep, first, ttl, now);
    laws::law_claim_takes_one(t, task, sweep, second, ttl, later);
    if c is Leased && d is Leased {
        let i = choose|i: int| #[trigger]
            laws::leases(s, t, task, sweep, first, c->expires, now, i) && s.work[i].path == c->path;
        let j = choose|j: int| #[trigger]
            laws::leases(t, u, task, sweep, second, d->expires, later, j) && t.work[j].score
                == d->score;
        assert(t.work[j].belongs(task, sweep) && t.work[j].status == WorkStatus::Pending);
        assert(i != j);
        assert(t.work[j] == laws::pooled(s.work[j], task, sweep, now));
        assert(s.work[j].belongs(task, sweep));
        assert(s.work[j].status == WorkStatus::Pending || s.work[j].expired(now));
    }
}

}
