//! What the priorities of a sweep are made from, folder by folder: the history of
//! the task, the snapshot, the task's own row and the settings.

use vstd::prelude::*;
use crate::config::StrategyConfig;
use crate::model::{FolderView, Real, StaticSignal, Strategy};
use crate::rows::FolderRowView;
use crate::scheduler;
use crate::scheduler::{Fraction, Recency, ScoreExpr};
use crate::state;
use crate::state::StoreView;
use crate::tally;

verus! {

// --- what is remembered ----------------------------------------------------------

/// Visit `j` is one of the path under the task.
pub open spec fn is_visit(s: StoreView, task: Seq<char>, path: Seq<char>, j: int) -> bool {
    0 <= j < s.visits.len() && s.visits[j].task == task && s.visits[j].path == path
}

/// No visit of the path under the task comes after visit `j`, which is one; of
/// visits at one moment the one recorded last comes last.
pub open spec fn is_last_visit(s: StoreView, task: Seq<char>, path: Seq<char>, j: int) -> bool {
    &&& is_visit(s, task, path, j)
    &&& forall|m: int| #[trigger]
        is_visit(s, task, path, m) ==> s.visits[m].visited_at < s.visits[j].visited_at || (
        s.visits[m].visited_at == s.visits[j].visited_at && m <= j)
}

/// No visit of the path under the task that reported an outcome comes after visit
/// `j`, which is one.
pub open spec fn is_last_report(s: StoreView, task: Seq<char>, path: Seq<char>, j: int) -> bool {
    &&& is_visit(s, task, path, j)
    &&& s.visits[j].outcome is Some
    &&& forall|m: int| #[trigger]
        is_visit(s, task, path, m) && s.visits[m].outcome is Some ==> s.visits[m].visited_at
            < s.visits[j].visited_at || (s.visits[m].visited_at == s.visits[j].visited_at && m
            <= j)
}

/// `n` is what was last reported of the path under the task; zero if nothing was.
pub open spec fn is_outcome(s: StoreView, task: Seq<char>, path: Seq<char>, n: i64) -> bool {
    if exists|m: int| #[trigger] is_visit(s, task, path, m) && s.visits[m].outcome is Some {
        exists|j: int| #[trigger] is_last_report(s, task, path, j) && s.visits[j].outcome == Some(n)
    } else {
        n == 0
    }
}

/// `r` says how long ago the path was last visited under the task.
pub open spec fn tells_age(
    s: StoreView,
    task: Seq<char>,
    path: Seq<char>,
    half_life: u64,
    now: i64,
    r: Recency,
) -> bool {
    if exists|m: int| #[trigger] is_visit(s, task, path, m) {
        exists|j: int| #[trigger]
            is_last_visit(s, task, path, j) && if now <= s.visits[j].visited_at {
                r is Fresh
            } else {
                r matches Recency::Aged { secs, half_life: h } && secs == now
                    - s.visits[j].visited_at && h >= 1 && (half_life >= 1 ==> h == half_life) && (
                half_life == 0 ==> h == 1)
            }
    } else {
        r is Never
    }
}

// --- what is compared -----------------------------------------------------------

/// The configured signal of a folder.
pub open spec fn chosen(f: FolderView, signal: StaticSignal) -> i64 {
    match signal {
        StaticSignal::FileCount => f.file_count,
        StaticSignal::SizeBytes => f.size_bytes,
        StaticSignal::Churn => f.churn,
    }
}

/// The configured signals of all folders.
pub open spec fn all_chosen(s: StoreView, signal: StaticSignal) -> Seq<i64> {
    s.folders.map_values(|f: FolderRowView| chosen(f.stat, signal))
}

/// What was last reported of each folder.
pub open spec fn are_outcomes(s: StoreView, task: Seq<char>, ns: Seq<i64>) -> bool {
    &&& ns.len() == s.folders.len()
    &&& forall|m: int|
        0 <= m < ns.len() ==> is_outcome(s, task, s.folders[m].stat.path, #[trigger] ns[m])
}

/// The share is to one as the value in place `i` is to the greatest; it is zero
/// where the value is not positive.
pub open spec fn is_share(w: Fraction, values: Seq<i64>, i: int) -> bool {
    &&& 0 <= w.num <= w.den
    &&& 0 < w.den
    &&& values[i] <= 0 ==> w.num == 0
    &&& values[i] > 0 ==> forall|m: int|
        0 <= m < values.len() && (forall|x: int| 0 <= x < values.len() ==> values[x] <= values[m])
            ==> w.num * #[trigger] values[m] == values[i] * w.den
}

/// `r` is the configured number where it lies between 0 and 1, and the nearer of
/// the two where it is less or greater.
pub open spec fn is_held(r: Real, configured: Real) -> bool {
    if configured.bits <= 0x3FF0_0000_0000_0000 {
        r == configured
    } else if configured.bits <= 0x7FF0_0000_0000_0000 {
        r.bits == 0x3FF0_0000_0000_0000
    } else if configured.bits <= 0x8000_0000_0000_0000 {
        r == configured
    } else if configured.bits <= 0xFFF0_0000_0000_0000 {
        r.bits == 0
    } else {
        r == configured
    }
}

/// `e` is the priority that the folder in place `i` gets in sweep `n` of a task
/// with this strategy and seed.
pub open spec fn is_priority(
    s: StoreView,
    task: Seq<char>,
    strategy: Strategy,
    seed: u64,
    n: i64,
    cfg: StrategyConfig,
    now: i64,
    i: int,
    e: ScoreExpr,
) -> bool {
    let path = s.folders[i].stat.path;
    match strategy {
        Strategy::Random => e matches ScoreExpr::Unit { unit } && unit == scheduler::unit_of(
            seed,
            n,
            path,
        ),
        Strategy::RoundRobin => {
            &&& e matches ScoreExpr::LeastRecent { recency, tie }
            &&& tells_age(s, task, path, cfg.half_life_secs, now, recency)
            &&& tie == scheduler::tie_of(seed, n, path)
        },
        Strategy::Weighted => {
            &&& e matches ScoreExpr::Blend { recency, weight, outcome, alpha, outcome_weight, tie }
            &&& tells_age(s, task, path, cfg.half_life_secs, now, recency)
            &&& is_share(weight, all_chosen(s, cfg.static_signal), i)
            &&& forall|ns: Seq<i64>| #[trigger]
                are_outcomes(s, task, ns) ==> is_share(outcome, ns, i)
            &&& is_held(alpha, cfg.alpha)
            &&& is_held(outcome_weight, cfg.outcome_weight)
            &&& tie == scheduler::tie_of(seed, n, path)
        },
    }
}

// --- laws --------------------------------------------------------------------------

/// Only one number is what was last reported.
proof fn lemma_one_outcome(s: StoreView, task: Seq<char>, path: Seq<char>, a: i64, b: i64)
    requires
        is_outcome(s, task, path, a),
        is_outcome(s, task, path, b),
    ensures
        a == b,
{
    if exists|m: int| #[trigger] is_visit(s, task, path, m) && s.visits[m].outcome is Some {
        let j = choose|j: int| #[trigger]
            is_last_report(s, task, path, j) && s.visits[j].outcome == Some(a);
        let k = choose|k: int| #[trigger]
            is_last_report(s, task, path, k) && s.visits[k].outcome == Some(b);
        assert(is_visit(s, task, path, j) && is_visit(s, task, path, k));
        assert(j == k);
    }
}

proof fn lemma_age(
    s: StoreView,
    task: Seq<char>,
    path: Seq<char>,
    half_life: u64,
    now: i64,
)
    requires
        forall|j: int|
            0 <= j < s.visits.len() && (#[trigger] s.visits[j]).task == task ==> i64::MIN <= now
                - s.visits[j].visited_at <= i64::MAX,
    ensures
        tells_age(s, task, path, half_life, now, s.recency(task, path, half_life, now)),
{
    let rank = state::by_visit(task, path);
    tally::lemma_top(s.visits, rank);
    match tally::top(s.visits, rank) {
        None => {
            assert forall|m: int| !#[trigger] is_visit(s, task, path, m) by {
                if is_visit(s, task, path, m) {
                    assert(rank(s.visits[m]) is Some);
                }
            }
        },
        Some(j) => {
            assert(is_visit(s, task, path, j));
            assert forall|m: int| #[trigger] is_visit(s, task, path, m) implies s.visits[m].visited_at
                < s.visits[j].visited_at || (s.visits[m].visited_at == s.visits[j].visited_at && m
                <= j) by {
                assert(rank(s.visits[m]) is Some);
            }
            assert(is_last_visit(s, task, path, j));
            assert(s.visits[j].task == task);
        },
    }
}

proof fn lemma_outcome(s: StoreView, task: Seq<char>, path: Seq<char>)
    ensures
        is_outcome(
            s,
            task,
            path,
            match s.last_outcome(task, path) {
                Some(n) => n,
                None => 0,
            },
        ),
{
    let rank = state::by_report(task, path);
    tally::lemma_top(s.visits, rank);
    match tally::top(s.visits, rank) {
        None => {
            assert forall|m: int| !(#[trigger] is_visit(s, task, path, m)
                && s.visits[m].outcome is Some) by {
                if is_visit(s, task, path, m) && s.visits[m].outcome is Some {
                    assert(rank(s.visits[m]) is Some);
                }
            }
        },
        Some(j) => {
            assert(is_visit(s, task, path, j));
            assert forall|m: int| #[trigger]
                is_visit(s, task, path, m) && s.visits[m].outcome is Some implies s.visits[m].visited_at
                < s.visits[j].visited_at || (s.visits[m].visited_at == s.visits[j].visited_at && m
                <= j) by {
                assert(rank(s.visits[m]) is Some);
            }
            assert(is_last_report(s, task, path, j));
        },
    }
}

/// Against the greatest of some values, or against zero where none is positive, a
/// value has its share.
proof fn lemma_share(values: Seq<i64>, i: int, max: i64)
    requires
        0 <= i < values.len(),
        forall|m: int| 0 <= m < values.len() ==> #[trigger] values[m] <= max || values[m] <= 0,
        max > 0 ==> exists|m: int| 0 <= m < values.len() && #[trigger] values[m] == max,
    ensures
        is_share(scheduler::normalized(values[i], max), values, i),
{
    let w = scheduler::normalized(values[i], max);
    if values[i] > 0 {
        assert(values[i] <= max);
        let top = choose|m: int| 0 <= m < values.len() && #[trigger] values[m] == max;
        assert forall|m: int|
            0 <= m < values.len() && (forall|x: int|
                0 <= x < values.len() ==> values[x] <= values[m]) implies w.num
            * #[trigger] values[m] == values[i] * w.den by {
            assert(values[top] <= values[m]);
            assert(values[m] == max);
        }
    }
}

/// Every folder of the snapshot gets the priority that its strategy, its history
/// under the task, its signal among those of the snapshot and the settings make.
pub proof fn law_every_folder_gets_its_priority(
    s: StoreView,
    task: Seq<char>,
    k: int,
    cfg: StrategyConfig,
    now: i64,
)
    requires
        s.keyed(),
        0 <= k < s.tasks.len(),
        s.tasks[k].name == task,
        s.tasks[k].current_sweep < i64::MAX,
        forall|j: int|
            0 <= j < s.visits.len() && (#[trigger] s.visits[j]).task == task ==> i64::MIN <= now
                - s.visits[j].visited_at <= i64::MAX,
    ensures
        s.plan(task, cfg, now).len() == s.folders.len(),
        forall|i: int|
            0 <= i < s.folders.len() ==> is_priority(
                s,
                task,
                s.tasks[k].strategy,
                s.tasks[k].seed,
                (s.tasks[k].current_sweep + 1) as i64,
                cfg,
                now,
                i,
                #[trigger] s.plan(task, cfg, now)[i],
            ),
{
    crate::validity::lemma_task_at(s, task);
    assert(s.task_at(task) == Some(k));
    assert forall|i: int| 0 <= i < s.folders.len() implies is_priority(
        s,
        task,
        s.tasks[k].strategy,
        s.tasks[k].seed,
        (s.tasks[k].current_sweep + 1) as i64,
        cfg,
        now,
        i,
        #[trigger] s.plan(task, cfg, now)[i],
    ) by {
        lemma_priority(s, task, k, cfg, now, i);
    }
}

proof fn lemma_priority(
    s: StoreView,
    task: Seq<char>,
    k: int,
    cfg: StrategyConfig,
    now: i64,
    i: int,
)
    requires
        s.task_at(task) == Some(k),
        s.tasks[k].current_sweep < i64::MAX,
        0 <= i < s.folders.len(),
        forall|j: int|
            0 <= j < s.visits.len() && (#[trigger] s.visits[j]).task == task ==> i64::MIN <= now
                - s.visits[j].visited_at <= i64::MAX,
    ensures
        is_priority(
            s,
            task,
            s.tasks[k].strategy,
            s.tasks[k].seed,
            (s.tasks[k].current_sweep + 1) as i64,
            cfg,
            now,
            i,
            s.plan(task, cfg, now)[i],
        ),
{
    let f = s.folders[i].stat;
    let e = s.plan(task, cfg, now)[i];
    assert(e == s.folder_expr(task, f, cfg, now));
    lemma_age(s, task, f.path, cfg.half_life_secs, now);
    // The weight.
    let values = all_chosen(s, cfg.static_signal);
    let rank = state::by_signal(cfg.static_signal);
    tally::lemma_top(s.folders, rank);
    assert(rank(s.folders[i]) is Some);
    let top = tally::top(s.folders, rank)->0;
    let max = s.max_signal(cfg.static_signal);
    assert forall|m: int| 0 <= m < values.len() implies #[trigger] values[m] <= max || values[m]
        <= 0 by {
        assert(rank(s.folders[m]) is Some);
    }
    assert(values[top] == max);
    lemma_share(values, i, max);
    assert(values[i] == f.signal(cfg.static_signal));
    // The outcome.
    let outs = s.outcomes(task);
    let ns = Seq::new(
        s.folders.len(),
        |m: int|
            match outs[m] {
                Some(n) => n,
                None => 0i64,
            },
    );
    let size = state::by_size();
    tally::lemma_top(outs, size);
    let most = s.max_outcome(task);
    assert forall|m: int| 0 <= m < ns.len() implies #[trigger] ns[m] <= most || ns[m] <= 0 by {
        if outs[m] is Some {
            assert(size(outs[m]) is Some);
        }
    }
    if most > 0 {
        let x = tally::top(outs, size)->0;
        assert(ns[x] == most);
    }
    lemma_share(ns, i, most);
    assert(outs[i] == s.last_outcome(task, f.path));
    let o = scheduler::normalized(
        match s.last_outcome(task, f.path) {
            Some(n) => n,
            None => 0,
        },
        most,
    );
    assert forall|os: Seq<i64>| #[trigger] are_outcomes(s, task, os) implies is_share(o, os, i) by {
        assert forall|m: int| 0 <= m < os.len() implies os[m] == ns[m] by {
            lemma_outcome(s, task, s.folders[m].stat.path);
            assert(outs[m] == s.last_outcome(task, s.folders[m].stat.path));
            assert(is_outcome(s, task, s.folders[m].stat.path, os[m]));
            lemma_one_outcome(s, task, s.folders[m].stat.path, os[m], ns[m]);
        }
        assert(os =~= ns);
    }
}

/// What was last reported of a folder is always some number, so that priorities
/// can be compared by it.
pub proof fn law_outcomes_are_known(s: StoreView, task: Seq<char>)
    ensures
        exists|ns: Seq<i64>| are_outcomes(s, task, ns),
{
    let ns = Seq::new(
        s.folders.len(),
        |m: int|
            match s.last_outcome(task, s.folders[m].stat.path) {
                Some(n) => n,
                None => 0i64,
            },
    );
    assert forall|m: int| 0 <= m < ns.len() implies is_outcome(
        s,
        task,
        s.folders[m].stat.path,
        #[trigger] ns[m],
    ) by {
        lemma_outcome(s, task, s.folders[m].stat.path);
    }
    assert(are_outcomes(s, task, ns));
}

/// The history is the same but for the outcomes that were reported.
pub open spec fn same_but_outcomes(s: StoreView, t: StoreView) -> bool {
    &&& t.folders == s.folders
    &&& t.tasks == s.tasks
    &&& t.visits.len() == s.visits.len()
    &&& forall|j: int|
        #![trigger s.visits[j]]
        #![trigger t.visits[j]]
        0 <= j < s.visits.len() ==> s.visits[j].task == t.visits[j].task && s.visits[j].path
            == t.visits[j].path && s.visits[j].visited_at == t.visits[j].visited_at
}

/// Where reported outcomes are to be ignored they are: their share gets no weight,
/// and two histories that differ in nothing but the outcomes lead to priorities
/// that differ in nothing but that share.
pub proof fn law_outcomes_are_ignored_by_default(
    s: StoreView,
    t: StoreView,
    task: Seq<char>,
    k: int,
    cfg: StrategyConfig,
    now: i64,
    i: int,
)
    requires
        s.keyed(),
        same_but_outcomes(s, t),
        0 <= k < s.tasks.len(),
        s.tasks[k].name == task,
        0 <= i < s.folders.len(),
        cfg.outcome_weight.bits == 0,
    ensures
        match (s.plan(task, cfg, now)[i], t.plan(task, cfg, now)[i]) {
            (
                ScoreExpr::Blend { recency, weight, outcome, alpha, outcome_weight, tie },
                ScoreExpr::Blend {
                    recency: recency2,
                    weight: weight2,
                    outcome: outcome2,
                    alpha: alpha2,
                    outcome_weight: outcome_weight2,
                    tie: tie2,
                },
            ) => {
                &&& outcome_weight.bits == 0
                &&& outcome_weight2.bits == 0
                &&& recency == recency2
                &&& weight == weight2
                &&& alpha == alpha2
                &&& tie == tie2
            },
            (a, b) => a == b,
        },
{
    let path = s.folders[i].stat.path;
    let rank = state::by_visit(task, path);
    assert forall|j: int|
        #![trigger s.visits[j]]
        #![trigger t.visits[j]]
        0 <= j < s.visits.len() implies rank(s.visits[j]) == rank(t.visits[j]) by {}
    tally::lemma_top_same(s.visits, t.visits, rank);
    tally::lemma_top(s.visits, rank);
    assert(s.plan(task, cfg, now)[i] == s.folder_expr(task, s.folders[i].stat, cfg, now));
    assert(t.plan(task, cfg, now)[i] == t.folder_expr(task, s.folders[i].stat, cfg, now));
    assert(t.task_at(task) == s.task_at(task));
    assert(t.max_signal(cfg.static_signal) == s.max_signal(cfg.static_signal));
}

}
