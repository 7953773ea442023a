//! What the state is and what each command does to it, as mathematics: the
//! store's functions are proved to compute these.

use vstd::prelude::*;
use crate::config::StrategyConfig;
use crate::error::ErrorView;
use crate::model::{
    CompleteView, FolderView, InfoView, ListView, NextView, ResetView, Score, StaticSignal,
    StatusView, Strategy, SweepStatus, WorkStatus,
};
use crate::rows::{FolderRowView, SweepView, TaskView, VisitView, WorkView};
use crate::scheduler;
use crate::scheduler::{Recency, ScoreExpr};
use crate::tally;
use crate::tally::Rank;
use crate::text;

verus! {

/// The greatest number of rows of a table, and the most by which a maintained
/// counter may be off.
pub const ROW_LIMIT: i64 = 0x1000_0000_0000_0000;

/// The state: every table, its rows in the order in which they were inserted.
#[verifier::ext_equal]
pub struct StoreView {
    pub folders: Seq<FolderRowView>,
    pub tasks: Seq<TaskView>,
    pub sweeps: Seq<SweepView>,
    pub work: Seq<WorkView>,
    pub visits: Seq<VisitView>,
}

// --- rows ----------------------------------------------------------------------

impl WorkView {
    /// The row is on the board of a sweep.
    pub open spec fn belongs(self, task: Seq<char>, sweep: i64) -> bool {
        self.task == task && self.sweep == sweep
    }

    /// The row's lease ran out before `now`.
    pub open spec fn expired(self, now: i64) -> bool {
        self.status == WorkStatus::Leased && (self.lease_expires_at matches Some(e) && e < now)
    }

    /// The row, back in the pool.
    pub open spec fn returned(self) -> WorkView {
        WorkView {
            status: WorkStatus::Pending,
            lease_owner: None,
            lease_expires_at: None,
            ..self
        }
    }

    /// The row, leased.
    pub open spec fn lent(self, agent: Option<Seq<char>>, expires: i64) -> WorkView {
        WorkView {
            status: WorkStatus::Leased,
            lease_owner: agent,
            lease_expires_at: Some(expires),
            ..self
        }
    }

    /// The row, covered.
    pub open spec fn finished(self, status: WorkStatus, now: i64) -> WorkView {
        WorkView {
            status,
            visited_at: Some(now),
            lease_owner: None,
            lease_expires_at: None,
            ..self
        }
    }

    /// The row as `list` shows it.
    pub open spec fn listed(self) -> ListView {
        ListView {
            path: self.path,
            status: self.status.name(),
            score: self.score,
            lease_owner: self.lease_owner,
            lease_expires_at: self.lease_expires_at,
            visited_at: self.visited_at,
        }
    }
}

impl SweepView {
    /// The maintained number of folders in a status.
    pub open spec fn counter(self, status: WorkStatus) -> int {
        match status {
            WorkStatus::Pending => self.pending,
            WorkStatus::Leased => self.leased,
            WorkStatus::Done => self.done,
            WorkStatus::Skipped => self.skipped,
        }
    }

    /// The row with a counter changed by `k`.
    pub open spec fn plus(self, status: WorkStatus, k: int) -> SweepView {
        match status {
            WorkStatus::Pending => SweepView { pending: self.pending + k, ..self },
            WorkStatus::Leased => SweepView { leased: self.leased + k, ..self },
            WorkStatus::Done => SweepView { done: self.done + k, ..self },
            WorkStatus::Skipped => SweepView { skipped: self.skipped + k, ..self },
        }
    }

    /// The row after `k` folders went from one status to another.
    pub open spec fn moved(self, from: WorkStatus, to: WorkStatus, k: int) -> SweepView {
        self.plus(from, -k).plus(to, k)
    }

    /// The row, closed if it was still active.
    pub open spec fn closed(self, now: i64) -> SweepView {
        if self.status == SweepStatus::Active {
            SweepView { status: SweepStatus::Complete, completed_at: Some(now), ..self }
        } else {
            self
        }
    }

    /// Folders still to be covered, by the counters.
    pub open spec fn outstanding(self) -> int {
        self.pending + self.leased
    }
}

// --- which rows ------------------------------------------------------------------

/// Work rows of a sweep.
pub open spec fn of_sweep(task: Seq<char>, sweep: i64) -> spec_fn(WorkView) -> bool {
    |w: WorkView| w.belongs(task, sweep)
}

/// Work rows of a sweep in a status.
pub open spec fn of_status(task: Seq<char>, sweep: i64, status: WorkStatus) -> spec_fn(
    WorkView,
) -> bool {
    |w: WorkView| w.belongs(task, sweep) && w.status == status
}

/// Work rows of a sweep whose lease ran out.
pub open spec fn due(task: Seq<char>, sweep: i64, now: i64) -> spec_fn(WorkView) -> bool {
    |w: WorkView| w.belongs(task, sweep) && w.expired(now)
}

/// Work rows of a sweep that a claim may lease: pending, or their lease ran out.
pub open spec fn free(task: Seq<char>, sweep: i64, now: i64) -> spec_fn(WorkView) -> bool {
    |w: WorkView| w.belongs(task, sweep) && (w.status == WorkStatus::Pending || w.expired(now))
}

/// Work rows of any sweep whose lease ran out.
pub open spec fn due_anywhere(now: i64) -> spec_fn(WorkView) -> bool {
    |w: WorkView| w.expired(now)
}

/// Sweeps of a task.
pub open spec fn sweep_of(task: Seq<char>) -> spec_fn(SweepView) -> bool {
    |s: SweepView| s.task == task
}

/// Work rows of other tasks.
pub open spec fn work_elsewhere(task: Seq<char>) -> spec_fn(WorkView) -> bool {
    |w: WorkView| w.task != task
}

/// Sweeps of other tasks.
pub open spec fn sweep_elsewhere(task: Seq<char>) -> spec_fn(SweepView) -> bool {
    |s: SweepView| s.task != task
}

/// Visits of other tasks.
pub open spec fn visit_elsewhere(task: Seq<char>) -> spec_fn(VisitView) -> bool {
    |v: VisitView| v.task != task
}

/// Work rows of a sweep, of one status or of all.
pub open spec fn visible(task: Seq<char>, sweep: i64, filter: Option<WorkStatus>) -> spec_fn(
    WorkView,
) -> bool {
    |w: WorkView| w.belongs(task, sweep) && (filter matches Some(f) ==> w.status == f)
}

/// The task of a name.
pub open spec fn by_name(name: Seq<char>) -> spec_fn(TaskView) -> Rank {
    |t: TaskView|
        if t.name == name {
            Some((0int, 0int))
        } else {
            None
        }
}

/// The sweep of a task with a number.
pub open spec fn by_number(task: Seq<char>, sweep: i64) -> spec_fn(SweepView) -> Rank {
    |s: SweepView|
        if s.task == task && s.sweep == sweep {
            Some((0int, 0int))
        } else {
            None
        }
}

/// The sweeps of a task, the newest first.
pub open spec fn by_newest(task: Seq<char>) -> spec_fn(SweepView) -> Rank {
    |s: SweepView|
        if s.task == task {
            Some((s.sweep as int, 0int))
        } else {
            None
        }
}

/// The active sweeps of a task, the newest first.
pub open spec fn by_newest_active(task: Seq<char>) -> spec_fn(SweepView) -> Rank {
    |s: SweepView|
        if s.task == task && s.status == SweepStatus::Active {
            Some((s.sweep as int, 0int))
        } else {
            None
        }
}

/// The pending folders of a sweep, the highest score first.
pub open spec fn by_score(task: Seq<char>, sweep: i64) -> spec_fn(WorkView) -> Rank {
    |w: WorkView|
        if w.belongs(task, sweep) && w.status == WorkStatus::Pending {
            Some((w.score.key as int, 0int))
        } else {
            None
        }
}

/// The rows of a path that a completion may mean: an outstanding one first,
/// preferring this agent's lease, else the one of the newest sweep.
pub open spec fn by_relevance(
    task: Seq<char>,
    path: Seq<char>,
    agent: Option<Seq<char>>,
) -> spec_fn(WorkView) -> Rank {
    |w: WorkView|
        if w.task == task && w.path == path {
            let outstanding: int = if w.status.outstanding() {
                2
            } else {
                0
            };
            let own: int = if agent is Some && w.lease_owner == agent {
                1
            } else {
                0
            };
            Some((outstanding + own, w.sweep as int))
        } else {
            None
        }
}

/// The visits of a path, the latest first.
pub open spec fn by_visit(task: Seq<char>, path: Seq<char>) -> spec_fn(VisitView) -> Rank {
    |v: VisitView|
        if v.task == task && v.path == path {
            Some((v.visited_at as int, 0int))
        } else {
            None
        }
}

/// The visits of a path that reported an outcome, the latest first.
pub open spec fn by_report(task: Seq<char>, path: Seq<char>) -> spec_fn(VisitView) -> Rank {
    |v: VisitView|
        if v.task == task && v.path == path && v.outcome is Some {
            Some((v.visited_at as int, 0int))
        } else {
            None
        }
}

/// The folders, the greatest signal first.
pub open spec fn by_signal(signal: StaticSignal) -> spec_fn(FolderRowView) -> Rank {
    |f: FolderRowView| Some((f.stat.signal(signal) as int, 0int))
}

/// Numbers, the greatest first; an absent one has no rank.
pub open spec fn by_size() -> spec_fn(Option<i64>) -> Rank {
    |n: Option<i64>|
        match n {
            Some(x) => Some((x as int, 0int)),
            None => None,
        }
}

// --- what commands may answer ----------------------------------------------------

/// Outcome of a single claim attempt.
#[verifier::ext_equal]
pub enum ClaimView {
    Leased { path: Seq<char>, score: Score, expires: i64, remaining: int },
    /// Nothing pending, but other agents hold leases.
    NoneAvailable { leased: int },
    /// Nothing pending and nothing leased: the sweep is drained.
    Empty,
}

/// When a lease taken at `now` ends. It never ends early: a sum that does not
/// fit stands for the last moment there is.
pub open spec fn lease_end(now: i64, ttl: i64) -> i64 {
    if i64::MIN <= now + ttl <= i64::MAX {
        (now + ttl) as i64
    } else {
        i64::MAX
    }
}

/// Why a sweep cannot be opened while another is active.
pub open spec fn still_active(task: Seq<char>, sweep: i64) -> Seq<char> {
    "sweep "@ + text::decimal_text(sweep as int) + " for task "@ + text::quoted_text(task)
        + " is still active; finish or reset it before opening a new sweep"@
}

/// Why a sweep cannot be opened for an unknown task.
pub open spec fn no_such_task(task: Seq<char>) -> Seq<char> {
    "task "@ + text::quoted_text(task) + " does not exist"@
}

/// Why a `next` gives up that would open a sweep while an older one is active.
pub open spec fn no_way_on(task: Seq<char>) -> Seq<char> {
    "next: too many sweep transitions for task "@ + text::quoted_text(task)
}

/// Why a path cannot be completed.
pub open spec fn not_a_work_item(task: Seq<char>, path: Seq<char>) -> Seq<char> {
    "path "@ + text::quoted_text(path) + " is not a work item in any sweep of task "@
        + text::quoted_text(task) + " (typo, wrong --task, or excluded by config?)"@
}

/// Why a status cannot be completed to.
pub open spec fn not_terminal(status: WorkStatus) -> Seq<char> {
    "complete() requires a terminal status (done/skipped), got "@ + (if status
        == WorkStatus::Pending {
        "Pending"@
    } else {
        "Leased"@
    })
}

/// What an empty sweep is reported with.
pub open spec fn empty_note() -> Seq<char> {
    "no folders registered for this sweep - did you run `trail init`?"@
}

impl StoreView {
    // --- looking up --------------------------------------------------------------

    /// Place of the task of a name.
    pub open spec fn task_at(self, name: Seq<char>) -> Option<int> {
        tally::top(self.tasks, by_name(name))
    }

    /// Place of a task's sweep with a number.
    pub open spec fn sweep_at(self, task: Seq<char>, sweep: i64) -> Option<int> {
        tally::top(self.sweeps, by_number(task, sweep))
    }

    /// Place of a task's newest sweep.
    pub open spec fn latest(self, task: Seq<char>) -> Option<int> {
        tally::top(self.sweeps, by_newest(task))
    }

    /// Place of a task's newest active sweep.
    pub open spec fn active(self, task: Seq<char>) -> Option<int> {
        tally::top(self.sweeps, by_newest_active(task))
    }

    /// How many folders a sweep's board has in a status.
    pub open spec fn live(self, task: Seq<char>, sweep: i64, status: WorkStatus) -> nat {
        tally::count(self.work, of_status(task, sweep, status))
    }

    /// How many folders a sweep's board has.
    pub open spec fn live_total(self, task: Seq<char>, sweep: i64) -> nat {
        tally::count(self.work, of_sweep(task, sweep))
    }

    /// By how much a sweep's counter for a status is off.
    pub open spec fn drift(self, s: SweepView, status: WorkStatus) -> int {
        s.counter(status) - self.live(s.task, s.sweep, status)
    }

    /// By how much a sweep's total is off.
    pub open spec fn drift_total(self, s: SweepView) -> int {
        s.total - self.live_total(s.task, s.sweep)
    }

    // --- validity ----------------------------------------------------------------

    /// No key occurs twice in a table.
    pub open spec fn keyed(self) -> bool {
        &&& forall|i: int, j: int|
            0 <= i < j < self.folders.len() ==> #[trigger] self.folders[i].stat.path
                != #[trigger] self.folders[j].stat.path
        &&& forall|i: int, j: int|
            0 <= i < j < self.tasks.len() ==> #[trigger] self.tasks[i].name
                != #[trigger] self.tasks[j].name
        &&& forall|i: int, j: int|
            #![trigger self.sweeps[i], self.sweeps[j]]
            0 <= i < j < self.sweeps.len() ==> !(self.sweeps[i].task == self.sweeps[j].task
                && self.sweeps[i].sweep == self.sweeps[j].sweep)
        &&& forall|i: int, j: int|
            #![trigger self.work[i], self.work[j]]
            0 <= i < j < self.work.len() ==> !(self.work[i].task == self.work[j].task
                && self.work[i].sweep == self.work[j].sweep && self.work[i].path
                == self.work[j].path)
    }

    /// A sweep of a registered task is one that the task has opened.
    pub open spec fn owned(self, s: SweepView) -> bool {
        forall|k: int|
            0 <= k < self.tasks.len() && (#[trigger] self.tasks[k]).name == s.task ==> s.sweep
                <= self.tasks[k].current_sweep
    }

    /// Of a task's sweeps only the newest is active.
    #[verifier::opaque]
    pub open spec fn single(self) -> bool {
        forall|i: int, j: int|
            #![trigger self.sweeps[i], self.sweeps[j]]
            0 <= i < self.sweeps.len() && 0 <= j < self.sweeps.len() && self.sweeps[i].task
                == self.sweeps[j].task && self.sweeps[i].status == SweepStatus::Active
                ==> self.sweeps[j].sweep <= self.sweeps[i].sweep
    }

    /// A folder on a board belongs to a sweep.
    pub open spec fn placed(self, w: WorkView) -> bool {
        exists|k: int|
            0 <= k < self.sweeps.len() && (#[trigger] self.sweeps[k]).task == w.task
                && self.sweeps[k].sweep == w.sweep
    }

    /// Every folder on a board belongs to a sweep.
    pub open spec fn linked(self) -> bool {
        forall|i: int| 0 <= i < self.work.len() ==> self.placed(#[trigger] self.work[i])
    }

    /// No sweep is ahead of its task, and only a task's newest sweep is active. A
    /// valid state need not be so, but every state that commands lead to from an
    /// empty one is.
    pub open spec fn ordered(self) -> bool {
        &&& forall|i: int| 0 <= i < self.sweeps.len() ==> self.owned(#[trigger] self.sweeps[i])
        &&& self.single()
    }

    /// The counters of a sweep are off by no more than [`ROW_LIMIT`].
    pub open spec fn near(self, s: SweepView) -> bool {
        &&& -ROW_LIMIT <= self.drift_total(s) <= ROW_LIMIT
        &&& forall|status: WorkStatus| -ROW_LIMIT <= #[trigger] self.drift(s, status) <= ROW_LIMIT
    }

    /// The counters can be moved with the rows of the board.
    pub open spec fn countable(self) -> bool {
        &&& self.work.len() <= ROW_LIMIT
        &&& forall|i: int| 0 <= i < self.sweeps.len() ==> self.near(#[trigger] self.sweeps[i])
    }

    /// Every number that a command computes fits its type.
    pub open spec fn bounded(self) -> bool {
        &&& self.folders.len() <= ROW_LIMIT
        &&& self.sweeps.len() <= ROW_LIMIT
        &&& self.countable()
    }

    /// The state is valid.
    pub open spec fn wf(self) -> bool {
        self.keyed() && self.linked() && self.bounded()
    }

    /// The counters of a sweep say what the board holds.
    pub open spec fn right(self, s: SweepView) -> bool {
        self.drift_total(s) == 0 && forall|status: WorkStatus| #[trigger] self.drift(s, status) == 0
    }

    /// The counters of every sweep say what the board holds.
    pub open spec fn consistent(self) -> bool {
        forall|i: int| #![trigger self.sweeps[i]]
            0 <= i < self.sweeps.len() ==> self.drift_total(self.sweeps[i]) == 0 && forall|
                status: WorkStatus,
            | #[trigger] self.drift(self.sweeps[i], status) == 0
    }

    // --- tasks and sweeps ----------------------------------------------------------

    /// Number of a task's newest sweep; zero if it has none.
    pub open spec fn newest(self, task: Seq<char>) -> i64 {
        match self.latest(task) {
            Some(k) => self.sweeps[k].sweep,
            None => 0,
        }
    }

    /// Number of the sweep that a task opened last; of a task that is not
    /// registered, of its newest sweep.
    pub open spec fn current(self, task: Seq<char>) -> i64 {
        match self.task_at(task) {
            Some(k) => self.tasks[k].current_sweep,
            None => self.newest(task),
        }
    }

    /// The state with a task registered; one that is there is left as it is.
    pub open spec fn ensured(
        self,
        task: Seq<char>,
        strategy: Strategy,
        seed: u64,
        now: i64,
    ) -> StoreView {
        if self.task_at(task) is Some {
            self
        } else {
            StoreView {
                tasks: self.tasks.push(
                    TaskView {
                        name: task,
                        strategy,
                        seed,
                        current_sweep: self.newest(task),
                        created_at: now,
                    },
                ),
                ..self
            }
        }
    }

    /// The state with a task's strategy changed.
    pub open spec fn with_strategy(self, task: Seq<char>, strategy: Strategy) -> StoreView {
        match self.task_at(task) {
            Some(k) => StoreView {
                tasks: self.tasks.update(k, TaskView { strategy, ..self.tasks[k] }),
                ..self
            },
            None => self,
        }
    }

    /// Number of the sweep that a task opens next.
    pub open spec fn next_number(self, task: Seq<char>) -> i64 {
        (self.tasks[self.task_at(task)->0].current_sweep + 1) as i64
    }

    /// Recency of a path under a task.
    pub open spec fn recency(
        self,
        task: Seq<char>,
        path: Seq<char>,
        half_life: u64,
        now: i64,
    ) -> Recency {
        match tally::top(self.visits, by_visit(task, path)) {
            Some(j) => scheduler::recency_of(
                (now - self.visits[j].visited_at) as i64,
                half_life,
            ),
            None => Recency::Never,
        }
    }

    /// The most recent outcome that was reported for a path under a task.
    pub open spec fn last_outcome(self, task: Seq<char>, path: Seq<char>) -> Option<i64> {
        match tally::top(self.visits, by_report(task, path)) {
            Some(j) => self.visits[j].outcome,
            None => None,
        }
    }

    /// The greatest signal of a folder; zero if there are none.
    pub open spec fn max_signal(self, signal: StaticSignal) -> i64 {
        match tally::top(self.folders, by_signal(signal)) {
            Some(i) => self.folders[i].stat.signal(signal),
            None => 0,
        }
    }

    /// The most recent outcome of each folder.
    pub open spec fn outcomes(self, task: Seq<char>) -> Seq<Option<i64>> {
        self.folders.map_values(|f: FolderRowView| self.last_outcome(task, f.stat.path))
    }

    /// The greatest most recent outcome of a folder; zero if none was reported.
    pub open spec fn max_outcome(self, task: Seq<char>) -> i64 {
        match tally::top(self.outcomes(task), by_size()) {
            Some(i) => self.outcomes(task)[i]->0,
            None => 0,
        }
    }

    /// What the score of a folder in a task's next sweep is.
    pub open spec fn folder_expr(
        self,
        task: Seq<char>,
        f: FolderView,
        cfg: StrategyConfig,
        now: i64,
    ) -> ScoreExpr {
        let row = self.tasks[self.task_at(task)->0];
        scheduler::score_of(
            row.strategy,
            self.recency(task, f.path, cfg.half_life_secs, now),
            scheduler::normalized(f.signal(cfg.static_signal), self.max_signal(cfg.static_signal)),
            scheduler::normalized(
                match self.last_outcome(task, f.path) {
                    Some(n) => n,
                    None => 0,
                },
                self.max_outcome(task),
            ),
            cfg.alpha,
            cfg.outcome_weight,
            row.seed,
            self.next_number(task),
            f.path,
        )
    }

    /// The scores of a task's next sweep, folder by folder.
    pub open spec fn plan(self, task: Seq<char>, cfg: StrategyConfig, now: i64) -> Seq<ScoreExpr> {
        self.folders.map_values(|f: FolderRowView| self.folder_expr(task, f.stat, cfg, now))
    }

    /// The board of a task's next sweep.
    pub open spec fn board(self, task: Seq<char>, scores: Seq<Score>) -> Seq<WorkView> {
        Seq::new(
            self.folders.len(),
            |i: int|
                WorkView {
                    task,
                    sweep: self.next_number(task),
                    path: self.folders[i].stat.path,
                    status: WorkStatus::Pending,
                    score: scores[i],
                    lease_owner: None,
                    lease_expires_at: None,
                    visited_at: None,
                },
        )
    }

    /// Why a task cannot open a sweep, if it cannot.
    pub open spec fn refusal(self, task: Seq<char>) -> Option<ErrorView> {
        if self.task_at(task) is None {
            Some(ErrorView::Other(no_such_task(task)))
        } else {
            match self.active(task) {
                Some(k) => Some(
                    ErrorView::SweepActive(still_active(task, self.sweeps[k].sweep)),
                ),
                None => None,
            }
        }
    }

    /// The numbers of a new sweep fit their types, and its own is not taken.
    pub open spec fn has_room(self, task: Seq<char>, now: i64) -> bool {
        &&& self.work.len() + self.folders.len() <= ROW_LIMIT
        &&& self.sweeps.len() < ROW_LIMIT
        &&& self.current(task) < i64::MAX
        &&& forall|i: int|
            0 <= i < self.sweeps.len() && (#[trigger] self.sweeps[i]).task == task
                ==> self.sweeps[i].sweep != self.current(task) + 1
        &&& forall|j: int|
            0 <= j < self.visits.len() && (#[trigger] self.visits[j]).task == task ==> i64::MIN
                <= now - self.visits[j].visited_at <= i64::MAX
    }

    /// The state with a task's next sweep opened: the board holds every folder
    /// of the snapshot, pending, with its frozen score.
    pub open spec fn opened(self, task: Seq<char>, now: i64, scores: Seq<Score>) -> StoreView {
        let k = self.task_at(task)->0;
        let n = self.next_number(task);
        let total = self.folders.len() as int;
        StoreView {
            sweeps: self.sweeps.push(
                SweepView {
                    task,
                    sweep: n,
                    status: SweepStatus::Active,
                    started_at: now,
                    completed_at: None,
                    total,
                    pending: total,
                    leased: 0,
                    done: 0,
                    skipped: 0,
                },
            ),
            work: self.work + self.board(task, scores),
            tasks: self.tasks.update(k, TaskView { current_sweep: n, ..self.tasks[k] }),
            ..self
        }
    }

    /// The state with a sweep closed if it was still active.
    pub open spec fn closed(self, task: Seq<char>, sweep: i64, now: i64) -> StoreView {
        match self.sweep_at(task, sweep) {
            Some(k) => StoreView {
                sweeps: self.sweeps.update(k, self.sweeps[k].closed(now)),
                ..self
            },
            None => self,
        }
    }

    /// What is said of a finished sweep.
    pub open spec fn summary(self, task: Seq<char>, sweep: i64) -> NextView {
        let s = self.sweeps[self.sweep_at(task, sweep)->0];
        NextView::SweepComplete {
            task,
            sweep,
            covered: s.done,
            total: s.total,
            note: if s.total == 0 {
                Some(empty_note())
            } else {
                None
            },
        }
    }

    // --- claiming ------------------------------------------------------------------

    /// The state with the expired leases of a sweep returned to the pool.
    pub open spec fn reclaimed(self, task: Seq<char>, sweep: i64, now: i64) -> StoreView {
        let k = self.sweep_at(task, sweep)->0;
        let n = tally::count(self.work, due(task, sweep, now)) as int;
        StoreView {
            work: self.work.map_values(
                |w: WorkView|
                    if w.belongs(task, sweep) && w.expired(now) {
                        w.returned()
                    } else {
                        w
                    },
            ),
            sweeps: self.sweeps.update(
                k,
                self.sweeps[k].moved(WorkStatus::Leased, WorkStatus::Pending, n),
            ),
            ..self
        }
    }

    /// A claim: the expired leases are returned to the pool, then the pending
    /// folder with the highest score is leased.
    pub open spec fn claim(
        self,
        task: Seq<char>,
        sweep: i64,
        agent: Option<Seq<char>>,
        ttl: i64,
        now: i64,
    ) -> (StoreView, ClaimView) {
        let s = self.reclaimed(task, sweep, now);
        let k = s.sweep_at(task, sweep)->0;
        match tally::top(s.work, by_score(task, sweep)) {
            Some(i) => {
                let row = s.work[i];
                let counted = s.sweeps[k].moved(WorkStatus::Pending, WorkStatus::Leased, 1);
                (
                    StoreView {
                        work: s.work.update(i, row.lent(agent, lease_end(now, ttl))),
                        sweeps: s.sweeps.update(k, counted),
                        ..s
                    },
                    ClaimView::Leased {
                        path: row.path,
                        score: row.score,
                        expires: lease_end(now, ttl),
                        remaining: counted.pending,
                    },
                )
            },
            None => (
                s,
                if s.sweeps[k].leased > 0 {
                    ClaimView::NoneAvailable { leased: s.sweeps[k].leased }
                } else {
                    ClaimView::Empty
                },
            ),
        }
    }

    /// What `next` makes of a claim: a drained sweep is closed.
    pub open spec fn settled(
        self,
        task: Seq<char>,
        sweep: i64,
        c: ClaimView,
        now: i64,
    ) -> (StoreView, NextView) {
        match c {
            ClaimView::Leased { path, score, expires, remaining } => (
                self,
                NextView::Claimed { task, sweep, path, score, lease_expires_at: expires, remaining },
            ),
            ClaimView::NoneAvailable { leased } => (
                self,
                NextView::NoneAvailable { task, sweep, leased_outstanding: leased },
            ),
            ClaimView::Empty => {
                let t = self.closed(task, sweep, now);
                (t, t.summary(task, sweep))
            },
        }
    }

    /// The first claim on a newly opened sweep; one without folders is closed.
    pub open spec fn open_and_claim(
        self,
        task: Seq<char>,
        agent: Option<Seq<char>>,
        ttl: i64,
        now: i64,
        scores: Seq<Score>,
    ) -> (StoreView, NextView) {
        let n = self.next_number(task);
        let s = self.opened(task, now, scores);
        if self.folders.len() == 0 {
            let t = s.closed(task, n, now);
            (t, t.summary(task, n))
        } else {
            let (t, c) = s.claim(task, n, agent, ttl, now);
            t.settled(task, n, c, now)
        }
    }

    /// The state in which `next` looks for a folder.
    pub open spec fn prepared(
        self,
        task: Seq<char>,
        cfg: StrategyConfig,
        strategy: Option<Strategy>,
        now: i64,
    ) -> StoreView {
        match strategy {
            Some(s) => self.ensured(task, s, cfg.seed, now).with_strategy(task, s),
            None => self.ensured(task, cfg.default, cfg.seed, now),
        }
    }

    /// The state in which a `next` opens a sweep, if it does: there is none, or
    /// the newest one is complete or drained and `auto` asks for another.
    pub open spec fn opening(
        self,
        task: Seq<char>,
        agent: Option<Seq<char>>,
        ttl: i64,
        auto: bool,
        now: i64,
    ) -> Option<StoreView> {
        match self.latest(task) {
            None => Some(self),
            Some(k) => {
                let n = self.sweeps[k].sweep;
                if !auto {
                    None
                } else if self.sweeps[k].status == SweepStatus::Complete {
                    Some(self)
                } else {
                    let (s, c) = self.claim(task, n, agent, ttl, now);
                    if c is Empty {
                        Some(s.closed(task, n, now))
                    } else {
                        None
                    }
                }
            },
        }
    }

    /// A `next` of a registered task would open a sweep, but an older one than the
    /// newest is still active.
    pub open spec fn stuck(
        self,
        task: Seq<char>,
        agent: Option<Seq<char>>,
        ttl: i64,
        auto: bool,
        now: i64,
    ) -> bool {
        self.opening(task, agent, ttl, auto, now) matches Some(s) && s.refusal(task) is Some
    }

    /// What `next` does where it opens no sweep.
    pub open spec fn next_here(
        self,
        task: Seq<char>,
        agent: Option<Seq<char>>,
        ttl: i64,
        now: i64,
    ) -> (StoreView, NextView) {
        let k = self.latest(task)->0;
        let n = self.sweeps[k].sweep;
        if self.sweeps[k].status == SweepStatus::Complete {
            (self, self.summary(task, n))
        } else {
            let (s, c) = self.claim(task, n, agent, ttl, now);
            s.settled(task, n, c, now)
        }
    }

    /// What `next` does once the task is registered.
    pub open spec fn next_step(
        self,
        task: Seq<char>,
        agent: Option<Seq<char>>,
        ttl: i64,
        auto: bool,
        now: i64,
        scores: Seq<Score>,
    ) -> (StoreView, NextView) {
        match self.opening(task, agent, ttl, auto, now) {
            Some(s) => s.open_and_claim(task, agent, ttl, now, scores),
            None => self.next_here(task, agent, ttl, now),
        }
    }

    // --- completing ------------------------------------------------------------------

    /// Marking a path covered: the most relevant row of it gets the status and
    /// the history a visit, unless that row is covered already.
    pub open spec fn complete(
        self,
        task: Seq<char>,
        path: Seq<char>,
        agent: Option<Seq<char>>,
        status: WorkStatus,
        reason: Option<Seq<char>>,
        found: Option<i64>,
        now: i64,
    ) -> Result<(StoreView, CompleteView), ErrorView> {
        if !status.terminal() {
            Err(ErrorView::Other(not_terminal(status)))
        } else {
            match tally::top(self.work, by_relevance(task, path, agent)) {
                None => Err(ErrorView::NotInSweep(not_a_work_item(task, path))),
                Some(i) => {
                    let row = self.work[i];
                    let s = if row.status.terminal() {
                        self
                    } else {
                        self.covered(i, agent, status, reason, found, now)
                    };
                    let k = s.sweep_at(task, row.sweep)->0;
                    let remaining = s.sweeps[k].outstanding();
                    Ok(
                        (
                            if remaining == 0 {
                                s.closed(task, row.sweep, now)
                            } else {
                                s
                            },
                            CompleteView {
                                status: if row.status.terminal() {
                                    row.status.name()
                                } else {
                                    status.name()
                                },
                                task,
                                sweep: row.sweep,
                                path,
                                remaining,
                                sweep_complete: remaining == 0 && !row.status.terminal(),
                            },
                        ),
                    )
                },
            }
        }
    }

    /// The state with work row `i` covered, its visit recorded and its sweep's
    /// counters moved.
    pub open spec fn covered(
        self,
        i: int,
        agent: Option<Seq<char>>,
        status: WorkStatus,
        reason: Option<Seq<char>>,
        found: Option<i64>,
        now: i64,
    ) -> StoreView {
        let row = self.work[i];
        let k = self.sweep_at(row.task, row.sweep)->0;
        StoreView {
            work: self.work.update(i, row.finished(status, now)),
            visits: self.visits.push(
                VisitView {
                    task: row.task,
                    path: row.path,
                    sweep: row.sweep,
                    visited_at: now,
                    agent,
                    status,
                    reason,
                    outcome: found,
                },
            ),
            sweeps: self.sweeps.update(k, self.sweeps[k].moved(row.status, status, 1)),
            ..self
        }
    }

    // --- reporting ---------------------------------------------------------------------

    /// The status report of a task.
    pub open spec fn status(self, task: Seq<char>) -> StatusView {
        match self.latest(task) {
            None => StatusView {
                task,
                sweep: 0,
                sweep_status: "none"@,
                total: 0,
                done: 0,
                leased: 0,
                pending: 0,
                skipped: 0,
                percent: (0, 1),
            },
            Some(k) => {
                let s = self.sweeps[k];
                StatusView {
                    task,
                    sweep: s.sweep,
                    sweep_status: s.status.name(),
                    total: s.total,
                    done: s.done,
                    leased: s.leased,
                    pending: s.pending,
                    skipped: s.skipped,
                    percent: if s.total > 0 {
                        (s.done, s.total)
                    } else {
                        (0, 1)
                    },
                }
            },
        }
    }

    /// The newest sweep of a task.
    pub open spec fn info(self, task: Seq<char>) -> InfoView {
        match self.latest(task) {
            None => InfoView {
                task,
                sweep: 0,
                sweep_status: "none"@,
                total: 0,
                started_at: None,
                completed_at: None,
            },
            Some(k) => {
                let s = self.sweeps[k];
                InfoView {
                    task,
                    sweep: s.sweep,
                    sweep_status: s.status.name(),
                    total: s.total,
                    started_at: Some(s.started_at),
                    completed_at: s.completed_at,
                }
            },
        }
    }

    /// The rows that `list` shows, in the order of the board.
    pub open spec fn shown(self, task: Seq<char>, filter: Option<WorkStatus>) -> Seq<ListView> {
        match self.latest(task) {
            None => Seq::empty(),
            Some(k) => {
                let n = self.sweeps[k].sweep;
                self.work.filter(visible(task, n, filter)).map_values(|w: WorkView| w.listed())
            },
        }
    }

    // --- control -------------------------------------------------------------------------

    /// The state with a task's sweeps cleared, and its history if `all`.
    pub open spec fn reset(self, task: Seq<char>, all: bool) -> StoreView {
        StoreView {
            work: self.work.filter(work_elsewhere(task)),
            sweeps: self.sweeps.filter(sweep_elsewhere(task)),
            tasks: self.tasks.map_values(
                |t: TaskView|
                    if t.name == task {
                        TaskView { current_sweep: 0, ..t }
                    } else {
                        t
                    },
            ),
            visits: if all {
                self.visits.filter(visit_elsewhere(task))
            } else {
                self.visits
            },
            ..self
        }
    }

    /// What `reset` answers.
    pub open spec fn reset_view(self, task: Seq<char>, all: bool) -> ResetView {
        ResetView {
            task,
            cleared_sweeps: tally::count(self.sweeps, sweep_of(task)) as int,
            cleared_history: all,
        }
    }

    /// The state with every expired lease returned to the pool.
    pub open spec fn swept(self, now: i64) -> StoreView {
        StoreView {
            work: self.work.map_values(
                |w: WorkView|
                    if w.expired(now) {
                        w.returned()
                    } else {
                        w
                    },
            ),
            sweeps: self.sweeps.map_values(
                |s: SweepView|
                    s.moved(
                        WorkStatus::Leased,
                        WorkStatus::Pending,
                        tally::count(self.work, due(s.task, s.sweep, now)) as int,
                    ),
            ),
            ..self
        }
    }

    /// The state with every sweep's counters computed from the board.
    pub open spec fn reconciled(self) -> StoreView {
        StoreView {
            sweeps: self.sweeps.map_values(
                |s: SweepView|
                    SweepView {
                        total: self.live_total(s.task, s.sweep) as int,
                        pending: self.live(s.task, s.sweep, WorkStatus::Pending) as int,
                        leased: self.live(s.task, s.sweep, WorkStatus::Leased) as int,
                        done: self.live(s.task, s.sweep, WorkStatus::Done) as int,
                        skipped: self.live(s.task, s.sweep, WorkStatus::Skipped) as int,
                        ..s
                    },
            ),
            ..self
        }
    }

    /// The state with another folder snapshot.
    pub open spec fn with_folders(self, folders: Seq<FolderView>, now: i64) -> StoreView {
        StoreView {
            folders: folders.map_values(
                |f: FolderView| FolderRowView { stat: f, scanned_at: now },
            ),
            ..self
        }
    }
}

/// The folder in place `j` was named before.
pub open spec fn repeats(folders: Seq<FolderView>, j: int) -> bool {
    0 <= j < folders.len() && exists|i: int|
        0 <= i < j && (#[trigger] folders[i]).path == folders[j].path
}

/// The folder in place `j` is the first that was named before.
pub open spec fn is_first_repeat(folders: Seq<FolderView>, j: int) -> bool {
    repeats(folders, j) && forall|m: int| m < j ==> !#[trigger] repeats(folders, m)
}

/// Place of the first folder that was named before, if there is one.
pub open spec fn first_repeat(folders: Seq<FolderView>) -> Option<int> {
    if exists|j: int| is_first_repeat(folders, j) {
        Some(choose|j: int| is_first_repeat(folders, j))
    } else {
        None
    }
}

/// The scores are what the scorer may return for the expressions.
pub open spec fn scored_by<F: Fn(ScoreExpr) -> Score>(
    scorer: F,
    exprs: Seq<ScoreExpr>,
    scores: Seq<Score>,
) -> bool {
    &&& scores.len() == exprs.len()
    &&& forall|i: int|
        0 <= i < exprs.len() ==> call_ensures(scorer, (exprs[i],), #[trigger] scores[i])
}

/// `next`, once the task is registered, may take `from` to `to` and answer `v`:
/// where it opens a sweep, the scores are ones that the scorer returned.
pub open spec fn advances<F: Fn(ScoreExpr) -> Score>(
    from: StoreView,
    to: StoreView,
    v: NextView,
    task: Seq<char>,
    cfg: StrategyConfig,
    agent: Option<Seq<char>>,
    ttl: i64,
    auto: bool,
    now: i64,
    scorer: F,
) -> bool {
    exists|scores: Seq<Score>| #[trigger]
        from.next_step(task, agent, ttl, auto, now, scores) == (to, v) && (from.opening(
            task,
            agent,
            ttl,
            auto,
            now,
        ) matches Some(s) ==> scored_by(scorer, s.plan(task, cfg, now), scores))
}

}
