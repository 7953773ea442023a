//! What each command answers and leaves behind, said of the rows themselves.

use vstd::prelude::*;
use crate::command;
use crate::command::{Command, Reply, Survey};
use crate::config::Config;
use crate::error::{Error, ErrorView};
use crate::listing;
use crate::model::{
    CompleteResult, CompleteView, ListRow, ListView, NextResult, Score, Strategy, SweepStatus,
    WorkStatus,
};
use crate::rows::{SweepView, VisitView, WorkView};
use crate::scheduler::ScoreExpr;
use crate::state;
use crate::state::StoreView;
use crate::store::Store;
use crate::tally;
use crate::text;
use crate::validity;
use crate::walk;
use crate::walk::FileEntry;

verus! {

// --- rows ------------------------------------------------------------------------

/// The sweep in place `k` is the task's, and none of its sweeps has a higher
/// number.
pub open spec fn is_newest(s: StoreView, task: Seq<char>, k: int) -> bool {
    &&& 0 <= k < s.sweeps.len()
    &&& s.sweeps[k].task == task
    &&& forall|j: int|
        0 <= j < s.sweeps.len() && (#[trigger] s.sweeps[j]).task == task ==> s.sweeps[j].sweep
            <= s.sweeps[k].sweep
}

/// The task has no sweep.
pub open spec fn has_none(s: StoreView, task: Seq<char>) -> bool {
    forall|j: int| 0 <= j < s.sweeps.len() ==> (#[trigger] s.sweeps[j]).task != task
}

/// What a folder's status is called.
pub open spec fn word(status: WorkStatus) -> Seq<char> {
    match status {
        WorkStatus::Pending => "pending"@,
        WorkStatus::Leased => "leased"@,
        WorkStatus::Done => "done"@,
        WorkStatus::Skipped => "skipped"@,
    }
}

/// What a sweep's state is called.
pub open spec fn sweep_word(status: SweepStatus) -> Seq<char> {
    match status {
        SweepStatus::Active => "active"@,
        SweepStatus::Complete => "complete"@,
    }
}

/// An optional text and the characters of it.
pub open spec fn reads(given: Option<String>, kept: Option<Seq<char>>) -> bool {
    match given {
        Some(s) => kept == Some(s@),
        None => kept is None,
    }
}

/// The row is leased, and was to be returned before `now`.
pub open spec fn ran_out(w: WorkView, now: i64) -> bool {
    w.status == WorkStatus::Leased && match w.lease_expires_at {
        Some(e) => e < now,
        None => false,
    }
}

/// `b` is row `a`, free for anyone.
pub open spec fn set_free(a: WorkView, b: WorkView) -> bool {
    &&& b.task == a.task
    &&& b.sweep == a.sweep
    &&& b.path == a.path
    &&& b.score == a.score
    &&& b.visited_at == a.visited_at
    &&& b.status == WorkStatus::Pending
    &&& b.lease_owner is None
    &&& b.lease_expires_at is None
}

/// How many rows of a sweep are in a status.
pub open spec fn number_in(s: StoreView, r: SweepView, status: WorkStatus) -> nat {
    s.work.filter(
        |w: WorkView| w.task == r.task && w.sweep == r.sweep && w.status == status,
    ).len()
}

/// The counters of a sweep are the numbers of its rows.
pub open spec fn counts(s: StoreView, r: SweepView) -> bool {
    &&& r.pending == number_in(s, r, WorkStatus::Pending)
    &&& r.leased == number_in(s, r, WorkStatus::Leased)
    &&& r.done == number_in(s, r, WorkStatus::Done)
    &&& r.skipped == number_in(s, r, WorkStatus::Skipped)
    &&& r.total == s.work.filter(|w: WorkView| w.task == r.task && w.sweep == r.sweep).len()
}

/// Two rows are of one sweep, in the same state since the same times.
pub open spec fn same_standing(a: SweepView, b: SweepView) -> bool {
    &&& a.task == b.task
    &&& a.sweep == b.sweep
    &&& a.status == b.status
    &&& a.started_at == b.started_at
    &&& a.completed_at == b.completed_at
}

pub proof fn lemma_newest(s: StoreView, task: Seq<char>)
    ensures
        match s.latest(task) {
            Some(k) => is_newest(s, task, k),
            None => has_none(s, task),
        },
{
    let rank = state::by_newest(task);
    tally::lemma_top(s.sweeps, rank);
    match s.latest(task) {
        Some(k) => {
            assert forall|j: int|
                0 <= j < s.sweeps.len() && (#[trigger] s.sweeps[j]).task
                    == task implies s.sweeps[j].sweep <= s.sweeps[k].sweep by {
                assert(rank(s.sweeps[j]) is Some);
            }
        },
        None => {
            assert forall|j: int| 0 <= j < s.sweeps.len() implies (#[trigger] s.sweeps[j]).task
                != task by {
                assert(rank(s.sweeps[j]) is None);
            }
        },
    }
}

// --- reading -----------------------------------------------------------------------

/// `status` changes nothing and reports the task's newest sweep: its number, its
/// state, and each of its counters as it is; of a task without one, that there is
/// none.
pub proof fn law_status_reports_the_newest_sweep<F: Fn(ScoreExpr) -> Score>(
    s: StoreView,
    t: StoreView,
    r: Result<Reply, Error>,
    task: String,
    cfg: Config,
    now: i64,
    scorer: F,
)
    requires
        command::performs(s, t, r, Command::Status { task }, cfg, now, scorer),
    ensures
        t == s,
        r matches Ok(Reply::Status(v)) && {
            &&& v.task@ == task@
            &&& has_none(s, task@) ==> {
                &&& v.sweep == 0
                &&& v.sweep_status@ == "none"@
                &&& v.total == 0 && v.done == 0 && v.leased == 0
                &&& v.pending == 0 && v.skipped == 0
                &&& v.percent.part == 0 && v.percent.whole == 1
            }
            &&& !has_none(s, task@) ==> exists|k: int| #[trigger]
                is_newest(s, task@, k) && {
                    &&& v.sweep == s.sweeps[k].sweep
                    &&& v.sweep_status@ == sweep_word(s.sweeps[k].status)
                    &&& v.total == s.sweeps[k].total
                    &&& v.done == s.sweeps[k].done
                    &&& v.leased == s.sweeps[k].leased
                    &&& v.pending == s.sweeps[k].pending
                    &&& v.skipped == s.sweeps[k].skipped
                    &&& v.total > 0 ==> v.percent.part == v.done && v.percent.whole == v.total
                    &&& v.total <= 0 ==> v.percent.part == 0 && v.percent.whole == 1
                }
        },
{
    lemma_newest(s, task@);
    let v = r->Ok_0->Status_0;
    assert(v@.task == task@);
    if let Some(k) = s.latest(task@) {
        assert(s.sweeps[k].task == task@);
        assert(v@.sweep == s.sweeps[k].sweep);
    }
}

/// `sweep show` changes nothing and reports the task's newest sweep: its number,
/// its state, how many folders it has, and when it was opened and completed.
pub proof fn law_show_reports_the_newest_sweep<F: Fn(ScoreExpr) -> Score>(
    s: StoreView,
    t: StoreView,
    r: Result<Reply, Error>,
    task: String,
    cfg: Config,
    now: i64,
    scorer: F,
)
    requires
        command::performs(s, t, r, Command::SweepShow { task }, cfg, now, scorer),
    ensures
        t == s,
        r matches Ok(Reply::Sweep(v)) && {
            &&& v.task@ == task@
            &&& has_none(s, task@) ==> {
                &&& v.sweep == 0
                &&& v.sweep_status@ == "none"@
                &&& v.total == 0
                &&& v.started_at is None
                &&& v.completed_at is None
            }
            &&& !has_none(s, task@) ==> exists|k: int| #[trigger]
                is_newest(s, task@, k) && {
                    &&& v.sweep == s.sweeps[k].sweep
                    &&& v.sweep_status@ == sweep_word(s.sweeps[k].status)
                    &&& v.total == s.sweeps[k].total
                    &&& v.started_at == Some(s.sweeps[k].started_at)
                    &&& v.completed_at == s.sweeps[k].completed_at
                }
        },
{
    lemma_newest(s, task@);
    let v = r->Ok_0->Sweep_0;
    assert(v@.task == task@);
    if let Some(k) = s.latest(task@) {
        assert(s.sweeps[k].task == task@);
        assert(v@.sweep == s.sweeps[k].sweep);
    }
}

/// The work row is to be listed.
pub open spec fn to_list(w: WorkView, task: Seq<char>, n: i64, only: Option<WorkStatus>) -> bool {
    w.task == task && w.sweep == n && match only {
        Some(f) => w.status == f,
        None => true,
    }
}

/// The listed row shows the work row as it is.
pub open spec fn shows(l: ListRow, w: WorkView) -> bool {
    &&& l.path@ == w.path
    &&& l.status@ == word(w.status)
    &&& WorkStatus::named(l.status@) == Some(w.status)
    &&& l.score == w.score
    &&& reads(l.lease_owner, w.lease_owner)
    &&& l.lease_expires_at == w.lease_expires_at
    &&& l.visited_at == w.visited_at
}

/// The listed row shows a row of a sweep that is to be listed.
pub open spec fn shows_one(
    l: ListRow,
    s: StoreView,
    task: Seq<char>,
    n: i64,
    only: Option<WorkStatus>,
) -> bool {
    exists|j: int|
        0 <= j < s.work.len() && to_list(s.work[j], task, n, only) && shows(l, #[trigger] s.work[j])
}

/// The list shows every row of a sweep that is to be listed, once, and nothing else.
pub open spec fn lists_all(
    v: Seq<ListRow>,
    s: StoreView,
    task: Seq<char>,
    n: i64,
    only: Option<WorkStatus>,
) -> bool {
    &&& v.len() == s.work.filter(|w: WorkView| to_list(w, task, n, only)).len()
    &&& forall|i: int| 0 <= i < v.len() ==> shows_one(#[trigger] v[i], s, task, n, only)
    &&& forall|j: int|
        0 <= j < s.work.len() && to_list(#[trigger] s.work[j], task, n, only) ==> exists|i: int|
            0 <= i < v.len() && shows(#[trigger] v[i], s.work[j])
}

/// `list` changes nothing and shows the folders of the task's newest sweep, all or
/// those in the status that is asked for, each once and as it is, by descending
/// score and else by path.
pub proof fn law_list_shows_the_newest_sweep<F: Fn(ScoreExpr) -> Score>(
    s: StoreView,
    t: StoreView,
    r: Result<Reply, Error>,
    task: String,
    only: Option<WorkStatus>,
    cfg: Config,
    now: i64,
    scorer: F,
)
    requires
        command::performs(s, t, r, Command::List { task, state: only }, cfg, now, scorer),
    ensures
        t == s,
        r matches Ok(Reply::List(v)) && {
            &&& has_none(s, task@) ==> v@.len() == 0
            &&& !has_none(s, task@) ==> exists|k: int| #[trigger]
                is_newest(s, task@, k) && {
                    lists_all(v@, s, task@, s.sweeps[k].sweep, only)
                }
            &&& only matches Some(f) ==> forall|i: int|
                0 <= i < v@.len() ==> (#[trigger] v@[i]).status@ == word(f)
            &&& forall|i: int, j: int|
                #![trigger v@[i], v@[j]]
                0 <= i < j < v@.len() ==> v@[i].score.key > v@[j].score.key || (v@[i].score.key
                    == v@[j].score.key && !text::text_before(v@[j].path@, v@[i].path@))
        },
{
    lemma_newest(s, task@);
    let v = r->Ok_0->List_0;
    let rows = tally::views(v@);
    let shown = s.shown(task@, only);
    assert forall|i: int, j: int|
        #![trigger v@[i], v@[j]]
        0 <= i < j < v@.len() implies v@[i].score.key > v@[j].score.key || (v@[i].score.key
        == v@[j].score.key && !text::text_before(v@[j].path@, v@[i].path@)) by {
        assert(rows[i] == v@[i]@ && rows[j] == v@[j]@);
        assert(!listing::shown_before(rows[j], rows[i]));
    }
    lemma_same_items(rows, shown);
    if let Some(k) = s.latest(task@) {
        let n = s.sweeps[k].sweep;
        lemma_lists_all(v@, s, task@, n, only);
        if let Some(f) = only {
            assert forall|i: int| 0 <= i < v@.len() implies (#[trigger] v@[i]).status@ == word(f) by {
                assert(shows_one(v@[i], s, task@, n, only));
            }
        }
    }
}

/// Lists with the same items as often are as long, and each holds what the other
/// does.
proof fn lemma_same_items(a: Seq<ListView>, b: Seq<ListView>)
    requires
        a.to_multiset() == b.to_multiset(),
    ensures
        a.len() == b.len(),
        forall|x: ListView| #[trigger] a.contains(x) <==> b.contains(x),
{
    broadcast use vstd::seq_lib::group_to_multiset_ensures;

    assert(a.to_multiset().len() == a.len());
    assert(b.to_multiset().len() == b.len());
    assert forall|x: ListView| #[trigger] a.contains(x) <==> b.contains(x) by {
        vstd::seq_lib::to_multiset_contains(a, x);
        vstd::seq_lib::to_multiset_contains(b, x);
    }
}

proof fn lemma_lists_all(
    v: Seq<ListRow>,
    s: StoreView,
    task: Seq<char>,
    n: i64,
    only: Option<WorkStatus>,
)
    requires
        tally::views(v).to_multiset() == s.work.filter(
            state::visible(task, n, only),
        ).map_values(|w: WorkView| w.listed()).to_multiset(),
    ensures
        lists_all(v, s, task, n, only),
{
    let rows = tally::views(v);
    let keep = state::visible(task, n, only);
    let kept = s.work.filter(keep);
    let shown = kept.map_values(|w: WorkView| w.listed());
    lemma_same_items(rows, shown);
    tally::lemma_kept(s.work, keep);
    assert(keep =~= (|w: WorkView| to_list(w, task, n, only)));
    assert forall|i: int| 0 <= i < v.len() implies shows_one(#[trigger] v[i], s, task, n, only) by {
        assert(rows[i] == v[i]@);
        assert(rows.contains(rows[i]));
        let m = choose|m: int| 0 <= m < shown.len() && shown[m] == rows[i];
        assert(shown[m] == kept[m].listed());
        assert(s.work.contains(kept[m]) && keep(kept[m]));
        let j = choose|j: int| 0 <= j < s.work.len() && s.work[j] == kept[m];
        lemma_shows(v[i], s.work[j]);
    }
    assert forall|j: int|
        0 <= j < s.work.len() && to_list(#[trigger] s.work[j], task, n, only) implies exists|
        i: int,
    | 0 <= i < v.len() && shows(#[trigger] v[i], s.work[j]) by {
        assert(keep(s.work[j]));
        let m = choose|m: int| 0 <= m < kept.len() && kept[m] == s.work[j];
        assert(shown[m] == s.work[j].listed());
        assert(shown.contains(shown[m]));
        assert(rows.contains(shown[m]));
        let i = choose|i: int| 0 <= i < rows.len() && rows[i] == shown[m];
        assert(rows[i] == v[i]@);
        lemma_shows(v[i], s.work[j]);
    }
    assert(v.len() == kept.len());
}

/// A row that shows a work row has its words.
proof fn lemma_shows(l: ListRow, w: WorkView)
    requires
        l@ == w.listed(),
    ensures
        shows(l, w),
{
    crate::model::law_names_read_back(Strategy::Random, w.status);
    assert(l@.status == w.status.name());
    assert(l@.path == w.path && l@.lease_owner == w.lease_owner);
}

// --- control -----------------------------------------------------------------------

/// `reset` says how many sweeps of the task it cleared and whether the history
/// went too. It takes away the task's sweeps and boards, and its visits if all is
/// to go; the task keeps its name, strategy and seed and starts again before its
/// first sweep. All else stays, in its order.
pub proof fn law_reset_clears_what_it_says<F: Fn(ScoreExpr) -> Score>(
    s: StoreView,
    t: StoreView,
    r: Result<Reply, Error>,
    task: String,
    all: bool,
    cfg: Config,
    now: i64,
    scorer: F,
)
    requires
        command::performs(s, t, r, Command::Reset { task, all }, cfg, now, scorer),
    ensures
        r matches Ok(Reply::Reset(v)) && {
            &&& v.task@ == task@
            &&& v.cleared_history == all
            &&& v.cleared_sweeps == s.sweeps.filter(|x: SweepView| x.task == task@).len()
            &&& v.cleared_sweeps == s.sweeps.len() - t.sweeps.len()
        },
        t.folders == s.folders,
        t.work == s.work.filter(|w: WorkView| w.task != task@),
        t.sweeps == s.sweeps.filter(|x: SweepView| x.task != task@),
        all ==> t.visits == s.visits.filter(|v: VisitView| v.task != task@),
        !all ==> t.visits == s.visits,
        t.tasks.len() == s.tasks.len(),
        forall|k: int|
            #![trigger s.tasks[k]]
            #![trigger t.tasks[k]]
            0 <= k < s.tasks.len() ==> {
                &&& t.tasks[k].name == s.tasks[k].name
                &&& t.tasks[k].strategy == s.tasks[k].strategy
                &&& t.tasks[k].seed == s.tasks[k].seed
                &&& t.tasks[k].created_at == s.tasks[k].created_at
                &&& s.tasks[k].name == task@ ==> t.tasks[k].current_sweep == 0
                &&& s.tasks[k].name != task@ ==> t.tasks[k].current_sweep
                    == s.tasks[k].current_sweep
            },
{
    let v = r->Ok_0->Reset_0;
    assert(v@ == s.reset_view(task@, all));
    let gone = |x: SweepView| x.task == task@;
    let stays = |x: SweepView| x.task != task@;
    assert(state::sweep_of(task@) =~= gone);
    assert(state::sweep_elsewhere(task@) =~= stays);
    assert(state::work_elsewhere(task@) =~= (|w: WorkView| w.task != task@));
    assert(state::visit_elsewhere(task@) =~= (|v: VisitView| v.task != task@));
    tally::lemma_filter_counts(s.sweeps, gone);
    tally::lemma_filter_counts(s.sweeps, stays);
    let any = |x: SweepView| true;
    tally::lemma_count_split(s.sweeps, gone, stays, s.sweeps, any);
    tally::lemma_count_all(s.sweeps, any);
}

/// `gc` says how many leases had run out, and returns exactly those folders to the
/// pool. It moves the counters of each sweep accordingly; where they are to be
/// rebuilt they are the numbers of the rows.
pub proof fn law_gc_returns_what_it_says<F: Fn(ScoreExpr) -> Score>(
    s: StoreView,
    t: StoreView,
    r: Result<Reply, Error>,
    reconcile: bool,
    cfg: Config,
    now: i64,
    scorer: F,
)
    requires
        command::performs(s, t, r, Command::Gc { reconcile }, cfg, now, scorer),
    ensures
        r matches Ok(Reply::Gc(v)) && v.reclaimed_leases == s.work.filter(
            |w: WorkView| ran_out(w, now),
        ).len(),
        t.folders == s.folders,
        t.tasks == s.tasks,
        t.visits == s.visits,
        t.work.len() == s.work.len(),
        forall|i: int|
            #![trigger s.work[i]]
            #![trigger t.work[i]]
            0 <= i < s.work.len() ==> if ran_out(s.work[i], now) {
                set_free(s.work[i], t.work[i])
            } else {
                t.work[i] == s.work[i]
            },
        t.sweeps.len() == s.sweeps.len(),
        forall|k: int|
            #![trigger s.sweeps[k]]
            #![trigger t.sweeps[k]]
            0 <= k < s.sweeps.len() ==> {
                let (a, b) = (s.sweeps[k], t.sweeps[k]);
                let n = s.work.filter(
                    |w: WorkView| w.task == a.task && w.sweep == a.sweep && ran_out(w, now),
                ).len();
                &&& same_standing(a, b)
                &&& reconcile ==> counts(t, b)
                &&& !reconcile ==> b.total == a.total && b.done == a.done && b.skipped == a.skipped
                    && b.pending == a.pending + n && b.leased == a.leased - n
            },
{
    let u = if reconcile {
        s.reconciled()
    } else {
        s
    };
    assert(u.work == s.work);
    let due = |w: WorkView| ran_out(w, now);
    assert(state::due_anywhere(now) =~= due);
    tally::lemma_filter_counts(s.work, due);
    assert forall|k: int|
        #![trigger s.sweeps[k]]
        #![trigger t.sweeps[k]]
        0 <= k < s.sweeps.len() implies {
        let (a, b) = (s.sweeps[k], t.sweeps[k]);
        let n = s.work.filter(
            |w: WorkView| w.task == a.task && w.sweep == a.sweep && ran_out(w, now),
        ).len();
        &&& same_standing(a, b)
        &&& reconcile ==> counts(t, b)
        &&& !reconcile ==> b.total == a.total && b.done == a.done && b.skipped == a.skipped
            && b.pending == a.pending + n && b.leased == a.leased - n
    } by {
        let a = s.sweeps[k];
        let here = |w: WorkView| w.task == a.task && w.sweep == a.sweep && ran_out(w, now);
        assert(state::due(a.task, a.sweep, now) =~= here);
        tally::lemma_filter_counts(s.work, here);
        assert(t.sweeps[k] == u.sweeps[k].moved(
            WorkStatus::Leased,
            WorkStatus::Pending,
            tally::count(s.work, here) as int,
        ));
        if reconcile {
            validity::lemma_reconciled(s);
            validity::lemma_swept_drift(u, now, k);
            assert(u.drift_total(u.sweeps[k]) == 0);
            assert forall|status: WorkStatus| #[trigger] t.drift(t.sweeps[k], status) == 0 by {
                assert(u.drift(u.sweeps[k], status) == 0);
            }
            lemma_counts(t, t.sweeps[k]);
        }
    }
}

/// Right counters are the numbers of the rows.
proof fn lemma_counts(s: StoreView, r: SweepView)
    requires
        s.right(r),
    ensures
        counts(s, r),
{
    assert forall|status: WorkStatus| number_in(s, r, status) == s.live(
        r.task,
        r.sweep,
        status,
    ) by {
        let p = |w: WorkView| w.task == r.task && w.sweep == r.sweep && w.status == status;
        assert(state::of_status(r.task, r.sweep, status) =~= p);
        tally::lemma_filter_counts(s.work, p);
    }
    assert(s.drift(r, WorkStatus::Pending) == 0 && s.drift(r, WorkStatus::Leased) == 0);
    assert(s.drift(r, WorkStatus::Done) == 0 && s.drift(r, WorkStatus::Skipped) == 0);
    let p = |w: WorkView| w.task == r.task && w.sweep == r.sweep;
    assert(state::of_sweep(r.task, r.sweep) =~= p);
    tally::lemma_filter_counts(s.work, p);
}

// --- covering ----------------------------------------------------------------------

/// Row `i` is the path's in some sweep of the task.
pub open spec fn is_item(s: StoreView, task: Seq<char>, path: Seq<char>, i: int) -> bool {
    0 <= i < s.work.len() && s.work[i].task == task && s.work[i].path == path
}

/// The row is still to be covered.
pub open spec fn is_open(w: WorkView) -> bool {
    w.status == WorkStatus::Pending || w.status == WorkStatus::Leased
}

/// The row is leased to the agent.
pub open spec fn is_own(w: WorkView, agent: Option<String>) -> bool {
    match agent {
        Some(a) => w.lease_owner == Some(a@),
        None => false,
    }
}

/// Row `i` is the one of the path that is meant: one that is still to be covered
/// if there is one, among those the agent's own if there is one, and else that of
/// the newest sweep.
pub open spec fn is_meant(
    s: StoreView,
    task: Seq<char>,
    path: Seq<char>,
    agent: Option<String>,
    i: int,
) -> bool {
    &&& is_item(s, task, path, i)
    &&& forall|j: int| #[trigger]
        is_item(s, task, path, j) ==> {
            &&& is_open(s.work[j]) ==> is_open(s.work[i])
            &&& is_open(s.work[j]) == is_open(s.work[i]) && is_own(s.work[j], agent) ==> is_own(
                s.work[i],
                agent,
            )
            &&& is_open(s.work[j]) == is_open(s.work[i]) && is_own(s.work[j], agent) == is_own(
                s.work[i],
                agent,
            ) ==> s.work[j].sweep <= s.work[i].sweep
        }
}

/// One, if so.
pub open spec fn one(b: bool) -> int {
    if b {
        1
    } else {
        0
    }
}

/// Row `i` was covered: its status and time are set, its lease is over, and the
/// visit with its report is the last of the history.
pub open spec fn is_covered(
    s: StoreView,
    t: StoreView,
    i: int,
    agent: Option<String>,
    status: WorkStatus,
    reason: Option<String>,
    outcome: Option<i64>,
    now: i64,
) -> bool {
    let (a, b) = (s.work[i], t.work[i]);
    &&& b.task == a.task
    &&& b.sweep == a.sweep
    &&& b.path == a.path
    &&& b.score == a.score
    &&& b.status == status
    &&& b.visited_at == Some(now)
    &&& b.lease_owner is None
    &&& b.lease_expires_at is None
    &&& t.visits.len() == s.visits.len() + 1
    &&& forall|m: int| 0 <= m < s.visits.len() ==> #[trigger] t.visits[m] == s.visits[m]
    &&& ({
        let v = t.visits[s.visits.len() as int];
        &&& v.task == a.task
        &&& v.path == a.path
        &&& v.sweep == a.sweep
        &&& v.visited_at == now
        &&& reads(agent, v.agent)
        &&& v.status == status
        &&& reads(reason, v.reason)
        &&& v.outcome == outcome
    })
}

/// The counters of the sweep in place `k` moved as its row `i` was covered, and the
/// sweep is closed if nothing is left of it.
pub open spec fn is_counted(
    s: StoreView,
    t: StoreView,
    i: int,
    k: int,
    status: WorkStatus,
    now: i64,
) -> bool {
    let (a, b) = (s.sweeps[k], t.sweeps[k]);
    let was = s.work[i].status;
    let moved = is_open(s.work[i]);
    &&& b.task == a.task
    &&& b.sweep == a.sweep
    &&& b.started_at == a.started_at
    &&& b.total == a.total
    &&& b.pending == a.pending - one(was == WorkStatus::Pending)
    &&& b.leased == a.leased - one(was == WorkStatus::Leased)
    &&& b.done == a.done + one(moved && status == WorkStatus::Done)
    &&& b.skipped == a.skipped + one(moved && status == WorkStatus::Skipped)
    &&& if b.pending + b.leased == 0 && a.status == SweepStatus::Active {
        b.status == SweepStatus::Complete && b.completed_at == Some(now)
    } else {
        b.status == a.status && b.completed_at == a.completed_at
    }
}

/// Row `i`, of the sweep in place `k`, is the one that is meant and is covered, now
/// or already; `c` says so, and nothing else is changed.
pub open spec fn marks(
    s: StoreView,
    t: StoreView,
    c: CompleteResult,
    task: Seq<char>,
    path: Seq<char>,
    agent: Option<String>,
    status: WorkStatus,
    reason: Option<String>,
    outcome: Option<i64>,
    now: i64,
    i: int,
    k: int,
) -> bool {
    &&& is_meant(s, task, path, agent, i)
    &&& is_counted(s, t, i, k, status, now)
    &&& 0 <= k < s.sweeps.len()
    &&& s.sweeps[k].task == task
    &&& s.sweeps[k].sweep == s.work[i].sweep
    &&& t.sweeps.len() == s.sweeps.len()
    &&& forall|m: int| 0 <= m < s.sweeps.len() && m != k ==> #[trigger] t.sweeps[m] == s.sweeps[m]
    &&& t.work.len() == s.work.len()
    &&& forall|j: int| 0 <= j < s.work.len() && j != i ==> #[trigger] t.work[j] == s.work[j]
    &&& c.task@ == task
    &&& c.path@ == path
    &&& c.sweep == s.work[i].sweep
    &&& c.remaining == t.sweeps[k].pending + t.sweeps[k].leased
    &&& is_open(s.work[i]) ==> {
        &&& is_covered(s, t, i, agent, status, reason, outcome, now)
        &&& c.status@ == word(status)
        &&& c.sweep_complete == (c.remaining == 0)
    }
    &&& !is_open(s.work[i]) ==> {
        &&& t.work[i] == s.work[i]
        &&& t.visits == s.visits
        &&& c.status@ == word(s.work[i].status)
        &&& !c.sweep_complete
    }
}

/// Some row is the one that is meant and is covered.
pub open spec fn marks_one(
    s: StoreView,
    t: StoreView,
    c: CompleteResult,
    task: Seq<char>,
    path: Seq<char>,
    agent: Option<String>,
    status: WorkStatus,
    reason: Option<String>,
    outcome: Option<i64>,
    now: i64,
) -> bool {
    exists|i: int, k: int| #[trigger]
        marks(s, t, c, task, path, agent, status, reason, outcome, now, i, k)
}

/// `done` and `skip` of a path that is no work item of the task are refused, say
/// so, and change nothing. Of any other they cover the row that is meant and record
/// the visit with exactly the reported outcome, or leave all as it is if that row
/// is covered already; they answer with the status that the row has then, with its
/// sweep, with what is left of that, and with whether this completed it.
pub proof fn law_done_and_skip_cover_what_is_meant<F: Fn(ScoreExpr) -> Score>(
    s: StoreView,
    t: StoreView,
    r: Result<Reply, Error>,
    skip: bool,
    task: String,
    path: String,
    agent: Option<String>,
    reason: Option<String>,
    found: Option<i64>,
    clean: bool,
    cfg: Config,
    now: i64,
    scorer: F,
)
    requires
        s.wf(),
        command::performs(
            s,
            t,
            r,
            if skip {
                Command::Skip { task, path, agent, reason, found, clean }
            } else {
                Command::Done { task, path, agent, reason, found, clean }
            },
            cfg,
            now,
            scorer,
        ),
    ensures
        t.folders == s.folders,
        t.tasks == s.tasks,
        ({
            let p = walk::stored_form(path@);
            let status = if skip {
                WorkStatus::Skipped
            } else {
                WorkStatus::Done
            };
            let outcome = if clean {
                Some(0i64)
            } else {
                found
            };
            if forall|i: int| !#[trigger] is_item(s, task@, p, i) {
                t == s && (r matches Err(Error::NotInSweep(m)) && m@ == "path "@
                    + text::quoted_text(p) + " is not a work item in any sweep of task "@
                    + text::quoted_text(task@)
                    + " (typo, wrong --task, or excluded by config?)"@)
            } else {
                r matches Ok(Reply::Complete(c)) && marks_one(
                    s,
                    t,
                    c,
                    task@,
                    p,
                    agent,
                    status,
                    reason,
                    outcome,
                    now,
                )
            }
        }),
{
    let p = walk::stored_form(path@);
    let status = if skip {
        WorkStatus::Skipped
    } else {
        WorkStatus::Done
    };
    let outcome = if clean {
        Some(0i64)
    } else {
        found
    };
    assert(command::completes(
        s,
        t,
        r,
        task@,
        path@,
        crate::model::owned_text(agent),
        status,
        crate::model::owned_text(reason),
        outcome,
        now,
    ));
    lemma_completes(s, t, r, task@, path@, agent, status, reason, outcome, now);
}

proof fn lemma_completes(
    s: StoreView,
    t: StoreView,
    r: Result<Reply, Error>,
    task: Seq<char>,
    path: Seq<char>,
    agent: Option<String>,
    status: WorkStatus,
    reason: Option<String>,
    outcome: Option<i64>,
    now: i64,
)
    requires
        s.wf(),
        status == WorkStatus::Done || status == WorkStatus::Skipped,
        command::completes(
            s,
            t,
            r,
            task,
            path,
            crate::model::owned_text(agent),
            status,
            crate::model::owned_text(reason),
            outcome,
            now,
        ),
    ensures
        t.folders == s.folders,
        t.tasks == s.tasks,
        ({
            let p = walk::stored_form(path);
            if forall|i: int| !#[trigger] is_item(s, task, p, i) {
                t == s && (r matches Err(Error::NotInSweep(m)) && m@ == "path "@
                    + text::quoted_text(p) + " is not a work item in any sweep of task "@
                    + text::quoted_text(task)
                    + " (typo, wrong --task, or excluded by config?)"@)
            } else {
                r matches Ok(Reply::Complete(c)) && marks_one(
                    s,
                    t,
                    c,
                    task,
                    p,
                    agent,
                    status,
                    reason,
                    outcome,
                    now,
                )
            }
        }),
{
    let p = walk::stored_form(path);
    let who = crate::model::owned_text(agent);
    let why = crate::model::owned_text(reason);
    let rank = state::by_relevance(task, p, who);
    tally::lemma_top(s.work, rank);
    match tally::top(s.work, rank) {
        None => {
            assert forall|i: int| !#[trigger] is_item(s, task, p, i) by {
                if is_item(s, task, p, i) {
                    assert(rank(s.work[i]) is Some);
                }
            }
        },
        Some(i) => {
            lemma_meant(s, task, p, agent, i);
            assert(is_item(s, task, p, i));
            let c = r->Ok_0->Complete_0;
            lemma_marks(s, t, c, task, p, agent, status, reason, outcome, now, i);
        },
    }
}

proof fn lemma_meant(
    s: StoreView,
    task: Seq<char>,
    path: Seq<char>,
    agent: Option<String>,
    i: int,
)
    requires
        tally::top(s.work, state::by_relevance(task, path, crate::model::owned_text(agent)))
            == Some(i),
    ensures
        is_meant(s, task, path, agent, i),
{
    let rank = state::by_relevance(task, path, crate::model::owned_text(agent));
    tally::lemma_top(s.work, rank);
    assert(rank(s.work[i]) is Some);
    assert forall|j: int| #[trigger] is_item(s, task, path, j) implies {
        &&& is_open(s.work[j]) ==> is_open(s.work[i])
        &&& is_open(s.work[j]) == is_open(s.work[i]) && is_own(s.work[j], agent) ==> is_own(
            s.work[i],
            agent,
        )
        &&& is_open(s.work[j]) == is_open(s.work[i]) && is_own(s.work[j], agent) == is_own(
            s.work[i],
            agent,
        ) ==> s.work[j].sweep <= s.work[i].sweep
    } by {
        assert(rank(s.work[j]) is Some);
    }
}

proof fn lemma_marks(
    s: StoreView,
    t: StoreView,
    c: CompleteResult,
    task: Seq<char>,
    path: Seq<char>,
    agent: Option<String>,
    status: WorkStatus,
    reason: Option<String>,
    outcome: Option<i64>,
    now: i64,
    i: int,
)
    requires
        s.wf(),
        status == WorkStatus::Done || status == WorkStatus::Skipped,
        is_meant(s, task, path, agent, i),
        tally::top(s.work, state::by_relevance(task, path, crate::model::owned_text(agent)))
            == Some(i),
        s.complete(
            task,
            path,
            crate::model::owned_text(agent),
            status,
            crate::model::owned_text(reason),
            outcome,
            now,
        ) == Ok::<(StoreView, CompleteView), ErrorView>((t, c@)),
    ensures
        t.folders == s.folders,
        t.tasks == s.tasks,
        marks_one(s, t, c, task, path, agent, status, reason, outcome, now),
{
    let who = crate::model::owned_text(agent);
    let why = crate::model::owned_text(reason);
    let row = s.work[i];
    validity::lemma_placed(s, i);
    let k = s.sweep_at(task, row.sweep)->0;
    let v = c@;
    assert(v.task == task && v.path == path && v.sweep == row.sweep);
    if row.status.terminal() {
        assert(t.sweeps[k].outstanding() == v.remaining);
        assert(is_counted(s, t, i, k, status, now));
    } else {
        let u = s.covered(i, who, status, why, outcome, now);
        validity::lemma_covered(s, i, who, status, why, outcome, now);
        assert(u.sweep_at(task, row.sweep) == Some(k));
        assert(u.sweeps[k] == s.sweeps[k].moved(row.status, status, 1));
        assert(v.remaining == u.sweeps[k].outstanding());
        assert(t.work == u.work && t.visits == u.visits);
        assert(t.visits == s.visits.push(t.visits[s.visits.len() as int]));
        assert(is_covered(s, t, i, agent, status, reason, outcome, now));
        assert(is_counted(s, t, i, k, status, now));
    }
    assert(marks(s, t, c, task, path, agent, status, reason, outcome, now, i, k));
}

/// No other status than the two that cover a folder can be completed to.
pub proof fn law_only_covering_completes(
    s: StoreView,
    task: Seq<char>,
    path: Seq<char>,
    agent: Option<Seq<char>>,
    reason: Option<Seq<char>>,
    found: Option<i64>,
    now: i64,
)
    ensures
        s.complete(task, path, agent, WorkStatus::Pending, reason, found, now) == Err::<
            (StoreView, CompleteView),
            ErrorView,
        >(
            ErrorView::Other(
                "complete() requires a terminal status (done/skipped), got "@ + "Pending"@,
            ),
        ),
        s.complete(task, path, agent, WorkStatus::Leased, reason, found, now) == Err::<
            (StoreView, CompleteView),
            ErrorView,
        >(
            ErrorView::Other(
                "complete() requires a terminal status (done/skipped), got "@ + "Leased"@,
            ),
        ),
{
}

// --- the tables ---------------------------------------------------------------------

/// The folders and tasks of the state are those of the tables, row by row.
pub proof fn law_folders_and_tasks_are_as_they_stand(store: Store)
    ensures
        store@.folders.len() == store.folders@.len(),
        forall|i: int|
            0 <= i < store.folders@.len() ==> {
                let (a, b) = (#[trigger] store.folders@[i], store@.folders[i]);
                &&& b.stat.path == a.stat.path@
                &&& b.stat.file_count == a.stat.file_count
                &&& b.stat.size_bytes == a.stat.size_bytes
                &&& b.stat.churn == a.stat.churn
                &&& b.scanned_at == a.scanned_at
            },
        store@.tasks.len() == store.tasks@.len(),
        forall|i: int|
            0 <= i < store.tasks@.len() ==> {
                let (a, b) = (#[trigger] store.tasks@[i], store@.tasks[i]);
                &&& b.name == a.name@
                &&& b.strategy == a.strategy
                &&& b.seed == a.seed
                &&& b.current_sweep == a.current_sweep
                &&& b.created_at == a.created_at
            },
{
}

/// The sweeps and boards of the state are those of the tables, row by row.
pub proof fn law_sweeps_and_boards_are_as_they_stand(store: Store)
    ensures
        store@.sweeps.len() == store.sweeps@.len(),
        forall|i: int|
            0 <= i < store.sweeps@.len() ==> {
                let (a, b) = (#[trigger] store.sweeps@[i], store@.sweeps[i]);
                &&& b.task == a.task@
                &&& b.sweep == a.sweep
                &&& b.status == a.status
                &&& b.started_at == a.started_at
                &&& b.completed_at == a.completed_at
                &&& b.total == a.total
                &&& b.pending == a.pending
                &&& b.leased == a.leased
                &&& b.done == a.done
                &&& b.skipped == a.skipped
            },
        store@.work.len() == store.work@.len(),
        forall|i: int|
            0 <= i < store.work@.len() ==> {
                let (a, b) = (#[trigger] store.work@[i], store@.work[i]);
                &&& b.task == a.task@
                &&& b.sweep == a.sweep
                &&& b.path == a.path@
                &&& b.status == a.status
                &&& b.score == a.score
                &&& reads(a.lease_owner, b.lease_owner)
                &&& b.lease_expires_at == a.lease_expires_at
                &&& b.visited_at == a.visited_at
            },
{
}

/// The history of the state is that of the table, visit by visit.
pub proof fn law_the_history_is_as_it_stands(store: Store)
    ensures
        store@.visits.len() == store.visits@.len(),
        forall|i: int|
            0 <= i < store.visits@.len() ==> {
                let (a, b) = (#[trigger] store.visits@[i], store@.visits[i]);
                &&& b.task == a.task@
                &&& b.path == a.path@
                &&& b.sweep == a.sweep
                &&& b.visited_at == a.visited_at
                &&& reads(a.agent, b.agent)
                &&& b.status == a.status
                &&& reads(a.reason, b.reason)
                &&& b.outcome == a.outcome
            },
{
}

// --- what stands in the way -----------------------------------------------------------

/// Rows whose keys are distinct, whose boards belong to sweeps and whose counters
/// are the numbers of the rows are sound, if they are not too many to count.
pub proof fn law_right_rows_are_sound(s: StoreView)
    requires
        s.folders.len() <= 0x1000_0000_0000_0000,
        s.sweeps.len() <= 0x1000_0000_0000_0000,
        s.work.len() <= 0x1000_0000_0000_0000,
        forall|i: int, j: int|
            #![trigger s.folders[i], s.folders[j]]
            0 <= i < j < s.folders.len() ==> s.folders[i].stat.path != s.folders[j].stat.path,
        forall|i: int, j: int|
            #![trigger s.tasks[i], s.tasks[j]]
            0 <= i < j < s.tasks.len() ==> s.tasks[i].name != s.tasks[j].name,
        forall|i: int, j: int|
            #![trigger s.sweeps[i], s.sweeps[j]]
            0 <= i < j < s.sweeps.len() ==> s.sweeps[i].task != s.sweeps[j].task
                || s.sweeps[i].sweep != s.sweeps[j].sweep,
        forall|i: int, j: int|
            #![trigger s.work[i], s.work[j]]
            0 <= i < j < s.work.len() ==> s.work[i].task != s.work[j].task || s.work[i].sweep
                != s.work[j].sweep || s.work[i].path != s.work[j].path,
        forall|i: int|
            0 <= i < s.work.len() ==> exists|k: int|
                0 <= k < s.sweeps.len() && (#[trigger] s.sweeps[k]).task == (
                #[trigger] s.work[i]).task && s.sweeps[k].sweep == s.work[i].sweep,
        forall|k: int| 0 <= k < s.sweeps.len() ==> counts(s, #[trigger] s.sweeps[k]),
    ensures
        s.wf(),
{
    assert forall|k: int| 0 <= k < s.sweeps.len() implies s.near(#[trigger] s.sweeps[k]) by {
        lemma_near(s, s.sweeps[k]);
    }
    assert forall|i: int| 0 <= i < s.work.len() implies s.placed(#[trigger] s.work[i]) by {}
}

proof fn lemma_near(s: StoreView, r: SweepView)
    requires
        counts(s, r),
    ensures
        s.near(r),
{
    assert forall|status: WorkStatus| #[trigger] s.drift(r, status) == 0 by {
        let p = |w: WorkView| w.task == r.task && w.sweep == r.sweep && w.status == status;
        assert(state::of_status(r.task, r.sweep, status) =~= p);
        tally::lemma_filter_counts(s.work, p);
        assert(number_in(s, r, status) == s.live(r.task, r.sweep, status));
        match status {
            WorkStatus::Pending => {},
            WorkStatus::Leased => {},
            WorkStatus::Done => {},
            WorkStatus::Skipped => {},
        }
    }
    let p = |w: WorkView| w.task == r.task && w.sweep == r.sweep;
    assert(state::of_sweep(r.task, r.sweep) =~= p);
    tally::lemma_filter_counts(s.work, p);
}

/// A survey can be summed up if it has no negative size, the sizes together fit, and
/// its files and changes can be counted.
pub proof fn law_a_survey_is_summed_up(survey: Survey)
    ensures
        survey.modest() <==> {
            &&& survey.files@.len() <= 0x1000_0000_0000_0000
            &&& survey.touched@.len() <= 0x1000_0000_0000_0000
            &&& forall|i: int| 0 <= i < survey.files@.len() ==> (#[trigger] survey.files@[i]).size >= 0
            &&& survey.files@.fold_left(0int, |sum: int, f: FileEntry| sum + f.size) <= i64::MAX
        },
{
    lemma_total(survey.files@);
}

proof fn lemma_total(files: Seq<FileEntry>)
    ensures
        command::total_size(tally::views(files)) == files.fold_left(
            0int,
            |sum: int, f: FileEntry| sum + f.size,
        ),
    decreases files.len(),
{
    if files.len() > 0 {
        lemma_total(files.drop_last());
        assert(tally::views(files).drop_last() =~= tally::views(files.drop_last()));
    }
}

/// The exit code tells the three answers of a `next` apart, and success from failure.
pub proof fn law_exit_codes_tell_answers_apart(v: NextResult)
    ensures
        v is Claimed ==> command::next_code(v@) == 0,
        v is SweepComplete ==> command::next_code(v@) == 3,
        v is NoneAvailable ==> command::next_code(v@) == 4,
        command::EXIT_OK == 0,
        command::EXIT_ERROR == 1,
{
}

}
