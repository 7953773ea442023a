//! The state and the commands on it: the folder snapshot, per-task sweeps, the
//! one-pass coverage board, and the append-only visit history that gives a
//! task-name its memory. A claim is one step, so parallel agents never get the
//! same folder, and expired leases are reclaimed automatically.

use vstd::prelude::*;
use crate::config::Config;
use crate::error::{ConfigIssue, Error, ErrorView};
use crate::laws;
use crate::listing;
use crate::model;
use crate::model::{
    CompleteResult, FolderStat, GcResult, ListRow, NextResult, Percent, ResetResult, Score,
    StatusReport, Strategy, SweepInfo, SweepStatus, WorkStatus,
};
use crate::rows::{
    FolderRow, FolderRowView, SweepRow, SweepView, TaskRow, TaskView, VisitRow, VisitView, WorkRow,
    WorkView,
};
use crate::scheduler;
use crate::scheduler::{Recency, ScoreExpr, ScoreInputs};
use crate::state;
use crate::state::{ClaimView, StoreView, ROW_LIMIT};
use crate::tally;
use crate::text;
use crate::validity;
use crate::walk;

verus! {

/// The state, held in memory.
#[derive(Debug)]
pub struct Store {
    pub folders: Vec<FolderRow>,
    pub tasks: Vec<TaskRow>,
    pub sweeps: Vec<SweepRow>,
    pub work: Vec<WorkRow>,
    pub visits: Vec<VisitRow>,
}

impl View for Store {
    type V = StoreView;

    open spec fn view(&self) -> StoreView {
        StoreView {
            folders: tally::views(self.folders@),
            tasks: tally::views(self.tasks@),
            sweeps: tally::views(self.sweeps@),
            work: tally::views(self.work@),
            visits: tally::views(self.visits@),
        }
    }
}

/// Internal outcome of a single claim attempt.
enum ClaimOutcome {
    Leased { path: String, score: Score, expires: i64, remaining: i64 },
    /// Nothing pending, but other agents hold leases.
    NoneAvailable { leased: i64 },
    /// Nothing pending and nothing leased: the sweep is drained.
    Empty,
}

impl View for ClaimOutcome {
    type V = ClaimView;

    closed spec fn view(&self) -> ClaimView {
        match *self {
            ClaimOutcome::Leased { path, score, expires, remaining } => ClaimView::Leased {
                path: path@,
                score,
                expires,
                remaining: remaining as int,
            },
            ClaimOutcome::NoneAvailable { leased } => ClaimView::NoneAvailable {
                leased: leased as int,
            },
            ClaimOutcome::Empty => ClaimView::Empty,
        }
    }
}

impl Store {
    // --- folder snapshot -----------------------------------------------------------

    /// An empty store.
    pub fn open_in_memory() -> (r: Result<Store, Error>)
        ensures
            r matches Ok(s) && s@ == (StoreView {
                folders: Seq::empty(),
                tasks: Seq::empty(),
                sweeps: Seq::empty(),
                work: Seq::empty(),
                visits: Seq::empty(),
            }) && s@.wf(),
    {
        let s = Store {
            folders: Vec::new(),
            tasks: Vec::new(),
            sweeps: Vec::new(),
            work: Vec::new(),
            visits: Vec::new(),
        };
        proof {
            assert(s@.folders =~= Seq::<FolderRowView>::empty());
            assert(s@.tasks =~= Seq::<TaskView>::empty());
            assert(s@.sweeps =~= Seq::<SweepView>::empty());
            assert(s@.work =~= Seq::<WorkView>::empty());
            assert(s@.visits =~= Seq::<VisitView>::empty());
        }
        Ok(s)
    }

    /// Replace the entire folder snapshot (called by `init` / rescan). A
    /// snapshot that names a folder twice is refused.
    pub fn replace_folders(&mut self, folders: &[FolderStat], now: i64) -> (r: Result<(), Error>)
        requires
            folders@.len() <= ROW_LIMIT,
        ensures
            old(self)@.keyed() ==> final(self)@.keyed(),
            old(self)@.wf() ==> final(self)@.wf(),
            match state::first_repeat(tally::views(folders@)) {
                None => r is Ok && final(self)@ == old(self)@.with_folders(
                    tally::views(folders@),
                    now,
                ),
                Some(j) => final(self)@ == old(self)@ && (r matches Err(e) && e@
                    == ErrorView::DuplicateFolder(folders@[j]@.path)),
            },
    {
        let ghost vs = tally::views(folders@);
        let ghost was = self@;
        match first_repeat(folders) {
            Some(j) => {
                return Err(Error::DuplicateFolder(folders[j].path.clone()));
            },
            None => {},
        }
        proof {
            validity::lemma_with_folders(was, vs, now);
        }
        let mut rows: Vec<FolderRow> = Vec::new();
        let mut i: usize = 0;
        while i < folders.len()
            invariant
                i <= folders@.len(),
                vs == tally::views(folders@),
                rows@.len() == i,
                forall|j: int|
                    0 <= j < i ==> (#[trigger] rows@[j])@ == (FolderRowView {
                        stat: vs[j],
                        scanned_at: now,
                    }),
            decreases folders@.len() - i,
        {
            rows.push(FolderRow { stat: folders[i].clone(), scanned_at: now });
            i = i + 1;
        }
        self.folders = rows;
        assert(self@.folders =~= was.with_folders(vs, now).folders);
        Ok(())
    }

    /// How many folders the snapshot holds.
    pub fn folder_count(&self) -> (r: Result<i64, Error>)
        requires
            self@.folders.len() <= ROW_LIMIT,
        ensures
            r matches Ok(n) && n == self@.folders.len(),
    {
        Ok(self.folders.len() as i64)
    }

    // --- looking up ----------------------------------------------------------------

    /// Place of the task of a name.
    fn task_at(&self, name: &str) -> (r: Option<usize>)
        ensures
            r matches Some(k) ==> k < self.tasks@.len(),
            self@.task_at(name@) == match r {
                Some(k) => Some(k as int),
                None => None,
            },
    {
        let f = |t: &TaskRow| -> (r: Option<(i64, i64)>)
            ensures
                state::by_name(name@)(t@) == tally::lifted(r),
            {
                if text::same(t.name.as_str(), name) {
                    Some((0, 0))
                } else {
                    None
                }
            };
        tally::first(&self.tasks, f, Ghost(state::by_name(name@)))
    }

    /// Place of a task's sweep with a number.
    fn sweep_at(&self, task: &str, sweep: i64) -> (r: Option<usize>)
        ensures
            r matches Some(k) ==> k < self.sweeps@.len(),
            self@.sweep_at(task@, sweep) == match r {
                Some(k) => Some(k as int),
                None => None,
            },
    {
        let f = |s: &SweepRow| -> (r: Option<(i64, i64)>)
            ensures
                state::by_number(task@, sweep)(s@) == tally::lifted(r),
            {
                if s.sweep == sweep && text::same(s.task.as_str(), task) {
                    Some((0, 0))
                } else {
                    None
                }
            };
        tally::first(&self.sweeps, f, Ghost(state::by_number(task@, sweep)))
    }

    /// Place of the most recent sweep for a task, if any.
    fn latest_sweep(&self, task: &str) -> (r: Option<usize>)
        ensures
            r matches Some(k) ==> k < self.sweeps@.len(),
            self@.latest(task@) == match r {
                Some(k) => Some(k as int),
                None => None,
            },
    {
        let f = |s: &SweepRow| -> (r: Option<(i64, i64)>)
            ensures
                state::by_newest(task@)(s@) == tally::lifted(r),
            {
                if text::same(s.task.as_str(), task) {
                    Some((s.sweep, 0))
                } else {
                    None
                }
            };
        tally::first(&self.sweeps, f, Ghost(state::by_newest(task@)))
    }

    // --- tasks / sweeps ------------------------------------------------------------

    /// Number of a task's newest sweep; zero if it has none.
    fn newest(&self, task: &str) -> (r: i64)
        ensures
            r == self@.newest(task@),
    {
        match self.latest_sweep(task) {
            Some(k) => {
                assert(self@.sweeps[k as int] == self.sweeps@[k as int]@);
                self.sweeps[k].sweep
            },
            None => 0,
        }
    }

    /// Registers a task under its name unless it is there. A task whose sweeps
    /// are there without it goes on from the newest of them.
    fn ensure_task(
        &mut self,
        task: &str,
        strategy: Strategy,
        seed: u64,
        now: i64,
    ) -> (r: Result<(), Error>)
        requires
            old(self)@.wf(),
        ensures
            final(self)@.wf(),
            if text::is_blank(task@) {
                final(self)@ == old(self)@ && (r matches Err(e) && e@ == ErrorView::Config(
                    ConfigIssue::EmptyTask,
                ))
            } else {
                r is Ok && final(self)@ == old(self)@.ensured(task@, strategy, seed, now)
            },
    {
        // Reject an empty/whitespace task name (almost always a shell-quoting
        // slip or an unset env var in an agent loop) rather than silently
        // opening a phantom task + sweep.
        if text::blank(task) {
            return Err(Error::Config(ConfigIssue::EmptyTask));
        }
        let ghost was = self@;
        proof {
            validity::lemma_ensured(was, task@, strategy, seed, now);
        }
        if self.task_at(task).is_none() {
            let row = TaskRow {
                name: task.to_owned(),
                strategy,
                seed,
                current_sweep: self.newest(task),
                created_at: now,
            };
            let ghost v = row@;
            self.tasks.push(row);
            assert(self@.tasks =~= was.tasks.push(v));
        }
        Ok(())
    }

    /// Gives a task another strategy.
    fn set_task_strategy(&mut self, task: &str, strategy: Strategy)
        requires
            old(self)@.wf(),
        ensures
            final(self)@.wf(),
            final(self)@ == old(self)@.with_strategy(task@, strategy),
    {
        let ghost was = self@;
        proof {
            validity::lemma_with_strategy(was, task@, strategy);
        }
        match self.task_at(task) {
            Some(k) => {
                assert(was.tasks[k as int] == self.tasks@[k as int]@);
                self.tasks[k].strategy = strategy;
                assert(self@.tasks =~= was.with_strategy(task@, strategy).tasks);
            },
            None => {},
        }
    }

    /// Recency of a path under a task.
    fn recency(&self, task: &str, path: &str, half_life: u64, now: i64) -> (r: Recency)
        requires
            self@.has_room(task@, now),
        ensures
            r == self@.recency(task@, path@, half_life, now),
    {
        let f = |v: &VisitRow| -> (r: Option<(i64, i64)>)
            ensures
                state::by_visit(task@, path@)(v@) == tally::lifted(r),
            {
                if text::same(v.path.as_str(), path) && text::same(v.task.as_str(), task) {
                    Some((v.visited_at, 0))
                } else {
                    None
                }
            };
        let ghost rank = state::by_visit(task@, path@);
        match tally::first(&self.visits, f, Ghost(rank)) {
            Some(j) => {
                proof {
                    tally::lemma_top(self@.visits, rank);
                    assert(rank(self@.visits[j as int]) is Some);
                    assert(self@.visits[j as int] == self.visits@[j as int]@);
                }
                scheduler::recency_priority(now - self.visits[j].visited_at, half_life)
            },
            None => Recency::Never,
        }
    }

    /// The most recent outcome that was reported for a path under a task.
    fn last_outcome(&self, task: &str, path: &str) -> (r: Option<i64>)
        ensures
            r == self@.last_outcome(task@, path@),
    {
        let f = |v: &VisitRow| -> (r: Option<(i64, i64)>)
            ensures
                state::by_report(task@, path@)(v@) == tally::lifted(r),
            {
                if v.outcome.is_some() && text::same(v.path.as_str(), path) && text::same(
                    v.task.as_str(),
                    task,
                ) {
                    Some((v.visited_at, 0))
                } else {
                    None
                }
            };
        match tally::first(&self.visits, f, Ghost(state::by_report(task@, path@))) {
            Some(j) => {
                assert(self@.visits[j as int] == self.visits@[j as int]@);
                self.visits[j].outcome
            },
            None => None,
        }
    }

    /// The greatest signal of a folder; zero if there are none.
    fn max_signal(&self, signal: model::StaticSignal) -> (r: i64)
        ensures
            r == self@.max_signal(signal),
    {
        let f = |row: &FolderRow| -> (r: Option<(i64, i64)>)
            ensures
                state::by_signal(signal)(row@) == tally::lifted(r),
            { Some((row.stat.signal(signal), 0)) };
        match tally::first(&self.folders, f, Ghost(state::by_signal(signal))) {
            Some(i) => {
                assert(self@.folders[i as int] == self.folders@[i as int]@);
                self.folders[i].stat.signal(signal)
            },
            None => 0,
        }
    }

    /// The most recent outcome of each folder.
    fn outcomes(&self, task: &str) -> (r: Vec<Option<i64>>)
        ensures
            r@ == self@.outcomes(task@),
    {
        let mut r: Vec<Option<i64>> = Vec::new();
        let mut i: usize = 0;
        while i < self.folders.len()
            invariant
                i <= self.folders@.len(),
                r@.len() == i,
                forall|j: int| 0 <= j < i ==> #[trigger] r@[j] == self@.outcomes(task@)[j],
            decreases self.folders@.len() - i,
        {
            assert(self@.folders[i as int] == self.folders@[i as int]@);
            r.push(self.last_outcome(task, self.folders[i].stat.path.as_str()));
            i = i + 1;
        }
        assert(r@ =~= self@.outcomes(task@));
        r
    }

    /// Whether a task's next sweep can be numbered and its rows be counted.
    pub fn can_open(&self, task: &str, now: i64) -> (r: bool)
        ensures
            r == self@.has_room(task@, now),
    {
        if self.work.len() as u128 + self.folders.len() as u128 > ROW_LIMIT as u128 {
            return false;
        }
        if self.sweeps.len() as u128 >= ROW_LIMIT as u128 {
            return false;
        }
        let current: i64 = match self.task_at(task) {
            Some(k) => {
                assert(self@.tasks[k as int] == self.tasks@[k as int]@);
                self.tasks[k].current_sweep
            },
            None => self.newest(task),
        };
        if current == i64::MAX {
            return false;
        }
        proof {
            tally::lemma_top(self@.sweeps, state::by_number(task@, (current + 1) as i64));
        }
        match self.sweep_at(task, current + 1) {
            Some(k) => {
                proof {
                    let rank = state::by_number(task@, (current + 1) as i64);
                    assert(rank(self@.sweeps[k as int]) is Some);
                }
                return false;
            },
            None => {},
        }
        proof {
            let rank = state::by_number(task@, (current + 1) as i64);
            assert forall|i: int| 0 <= i < self@.sweeps.len() && (#[trigger] self@.sweeps[i]).task
                == task@ implies self@.sweeps[i].sweep != current + 1 by {
                assert(rank(self@.sweeps[i]) is None);
            }
        }
        let mut j: usize = 0;
        while j < self.visits.len()
            invariant
                j <= self.visits@.len(),
                forall|m: int|
                    0 <= m < j && (#[trigger] self@.visits[m]).task == task@ ==> i64::MIN <= now
                        - self@.visits[m].visited_at <= i64::MAX,
            decreases self.visits@.len() - j,
        {
            assert(self@.visits[j as int] == self.visits@[j as int]@);
            if now.checked_sub(self.visits[j].visited_at).is_none() && text::same(
                self.visits[j].task.as_str(),
                task,
            ) {
                return false;
            }
            j = j + 1;
        }
        true
    }

    /// Place of a task's newest active sweep.
    fn active_sweep(&self, task: &str) -> (r: Option<usize>)
        ensures
            r matches Some(k) ==> k < self.sweeps@.len(),
            self@.active(task@) == match r {
                Some(k) => Some(k as int),
                None => None,
            },
    {
        let f = |s: &SweepRow| -> (r: Option<(i64, i64)>)
            ensures
                state::by_newest_active(task@)(s@) == tally::lifted(r),
            {
                if s.status == SweepStatus::Active && text::same(s.task.as_str(), task) {
                    Some((s.sweep, 0))
                } else {
                    None
                }
            };
        tally::first(&self.sweeps, f, Ghost(state::by_newest_active(task@)))
    }

    /// Whether a task has an active sweep.
    pub fn has_active_sweep(&self, task: &str) -> (r: bool)
        ensures
            r == (self@.active(task@) is Some),
    {
        self.active_sweep(task).is_some()
    }

    /// Whether a `next` of a task would open a sweep: there is none, or the
    /// newest one is complete or drained and `auto_sweep` asks for another.
    pub fn would_open(&self, task: &str, auto_sweep: bool, now: i64) -> (r: bool)
        requires
            self@.wf(),
        ensures
            forall|agent: Option<Seq<char>>, ttl: i64|
                r == (#[trigger] self@.opening(task@, agent, ttl, auto_sweep, now) is Some),
    {
        let k: usize = match self.latest_sweep(task) {
            Some(k) => k,
            None => return true,
        };
        proof {
            validity::lemma_latest(self@, task@);
            assert(self@.sweeps[k as int] == self.sweeps@[k as int]@);
        }
        if !auto_sweep {
            return false;
        }
        if self.sweeps[k].status == SweepStatus::Complete {
            return true;
        }
        let sweep: i64 = self.sweeps[k].sweep;
        let f = |w: &WorkRow| -> (r: bool)
            ensures
                r == state::free(task@, sweep, now)(w@),
            {
                w.sweep == sweep && (w.status == WorkStatus::Pending || lease_over(w, now))
                    && text::same(w.task.as_str(), task)
            };
        let n: usize = tally::number(&self.work, f, Ghost(state::free(task@, sweep, now)));
        proof {
            assert forall|agent: Option<Seq<char>>, ttl: i64|
                (n == 0 && self@.sweeps[k as int].leased <= 0) == (#[trigger] self@.opening(
                    task@,
                    agent,
                    ttl,
                    auto_sweep,
                    now,
                ) is Some) by {
                laws::lemma_drained_when(self@, task@, sweep, agent, ttl, now);
            }
        }
        n == 0 && self.sweeps[k].leased <= 0
    }

    /// Why a task cannot open a sweep, if it cannot.
    fn refusal(&self, task: &str) -> (r: Option<Error>)
        ensures
            match self@.refusal(task@) {
                Some(e) => r matches Some(x) && x@ == e,
                None => r is None,
            },
    {
        if self.task_at(task).is_none() {
            let mut m = "task ".to_owned();
            m.append(text::quoted(task).as_str());
            m.append(" does not exist");
            return Some(Error::Other(m));
        }
        match self.active_sweep(task) {
            Some(k) => {
                assert(self@.sweeps[k as int] == self.sweeps@[k as int]@);
                let mut m = "sweep ".to_owned();
                m.append(text::decimal(self.sweeps[k].sweep).as_str());
                m.append(" for task ");
                m.append(text::quoted(task).as_str());
                m.append(" is still active; finish or reset it before opening a new sweep");
                Some(Error::SweepActive(m))
            },
            None => None,
        }
    }

    /// What the scores of a task's next sweep are, folder by folder, from
    /// prior-sweep staleness, static weight and reported outcomes.
    pub fn plan_sweep(&self, task: &str, cfg: &Config, now: i64) -> (r: Result<
        Vec<ScoreExpr>,
        Error,
    >)
        requires
            self@.wf(),
            self@.refusal(task@) is None ==> self@.has_room(task@, now),
        ensures
            match self@.refusal(task@) {
                Some(e) => r matches Err(x) && x@ == e,
                None => r matches Ok(v) && v@ == self@.plan(task@, cfg.strategy, now),
            },
    {
        match self.refusal(task) {
            Some(e) => return Err(e),
            None => {},
        }
        let k: usize = self.task_at(task).unwrap();
        assert(self@.tasks[k as int] == self.tasks@[k as int]@);
        let strategy = self.tasks[k].strategy;
        let seed: u64 = self.tasks[k].seed;
        let sweep: i64 = self.tasks[k].current_sweep + 1;
        let signal = cfg.strategy.static_signal;
        let max_signal: i64 = self.max_signal(signal);
        let outcomes = self.outcomes(task);
        let max_outcome: i64 = greatest(&outcomes);
        let ghost plan = self@.plan(task@, cfg.strategy, now);
        let mut exprs: Vec<ScoreExpr> = Vec::new();
        let mut i: usize = 0;
        while i < self.folders.len()
            invariant
                i <= self.folders@.len(),
                self@.has_room(task@, now),
                self@.task_at(task@) == Some(k as int),
                strategy == self@.tasks[k as int].strategy,
                seed == self@.tasks[k as int].seed,
                sweep == self@.next_number(task@),
                signal == cfg.strategy.static_signal,
                max_signal == self@.max_signal(signal),
                outcomes@ == self@.outcomes(task@),
                max_outcome == self@.max_outcome(task@),
                plan == self@.plan(task@, cfg.strategy, now),
                exprs@.len() == i,
                forall|j: int| 0 <= j < i ==> #[trigger] exprs@[j] == plan[j],
            decreases self.folders@.len() - i,
        {
            assert(self@.folders[i as int] == self.folders@[i as int]@);
            let stat = &self.folders[i].stat;
            let path = stat.path.as_str();
            let last: i64 = match outcomes[i] {
                Some(n) => n,
                None => 0,
            };
            let inputs = ScoreInputs {
                recency: self.recency(task, path, cfg.strategy.half_life_secs, now),
                weight: scheduler::normalize(stat.signal(signal), max_signal),
                outcome: scheduler::normalize(last, max_outcome),
                alpha: cfg.strategy.alpha,
                outcome_weight: cfg.strategy.outcome_weight,
                seed,
                sweep,
                path,
            };
            exprs.push(scheduler::score(strategy, &inputs));
            i = i + 1;
        }
        assert(exprs@ =~= plan);
        Ok(exprs)
    }

    /// Opens the next sweep for a task with the scores that were computed for
    /// the folders, and seeds the coverage board. Returns (sweep_no,
    /// total_folders).
    pub fn open_sweep_scored(&mut self, task: &str, now: i64, scores: &Vec<Score>) -> (r: Result<
        (i64, i64),
        Error,
    >)
        requires
            old(self)@.wf(),
            old(self)@.refusal(task@) is None ==> old(self)@.has_room(task@, now),
            scores@.len() == old(self)@.folders.len(),
        ensures
            final(self)@.wf(),
            match old(self)@.refusal(task@) {
                Some(e) => final(self)@ == old(self)@ && (r matches Err(x) && x@ == e),
                None => final(self)@ == old(self)@.opened(task@, now, scores@) && r == Ok::<
                    (i64, i64),
                    Error,
                >((old(self)@.next_number(task@), old(self)@.folders.len() as i64)),
            },
    {
        match self.refusal(task) {
            Some(e) => return Err(e),
            None => {},
        }
        let ghost was = self@;
        proof {
            validity::lemma_opened(was, task@, now, scores@);
        }
        let k: usize = self.task_at(task).unwrap();
        assert(was.tasks[k as int] == self.tasks@[k as int]@);
        let sweep: i64 = self.tasks[k].current_sweep + 1;
        let total: i64 = self.folders.len() as i64;
        let row = SweepRow {
            task: task.to_owned(),
            sweep,
            status: SweepStatus::Active,
            started_at: now,
            completed_at: None,
            total,
            pending: total,
            leased: 0,
            done: 0,
            skipped: 0,
        };
        let ghost v = row@;
        self.sweeps.push(row);
        assert(self@.sweeps =~= was.sweeps.push(v));
        let ghost board = was.board(task@, scores@);
        let mut i: usize = 0;
        assert(self@.work =~= was.work + board.take(0));
        while i < self.folders.len()
            invariant
                i <= self.folders@.len(),
                scores@.len() == self.folders@.len(),
                self@.folders == was.folders,
                board == was.board(task@, scores@),
                sweep == was.next_number(task@),
                self@ == (StoreView {
                    sweeps: was.sweeps.push(v),
                    work: was.work + board.take(i as int),
                    ..was
                }),
            decreases self.folders@.len() - i,
        {
            assert(was.folders[i as int] == self.folders@[i as int]@);
            let item = WorkRow {
                task: task.to_owned(),
                sweep,
                path: self.folders[i].stat.path.clone(),
                status: WorkStatus::Pending,
                score: scores[i],
                lease_owner: None,
                lease_expires_at: None,
                visited_at: None,
            };
            assert(item@ =~= board[i as int]);
            let ghost before = self@.work;
            self.work.push(item);
            proof {
                assert(self@.work =~= before.push(board[i as int]));
                assert(self@.work =~= was.work + board.take(i + 1));
            }
            i = i + 1;
        }
        assert(board.take(was.folders.len() as int) =~= board);
        self.tasks[k].current_sweep = sweep;
        assert(self@.tasks =~= was.opened(task@, now, scores@).tasks);
        Ok((sweep, total))
    }

    /// Open the next sweep for a task: freeze a priority score per folder from
    /// prior-sweep staleness + static weight, and seed the coverage board.
    /// Returns (sweep_no, total_folders).
    fn open_sweep<F: Fn(ScoreExpr) -> Score>(
        &mut self,
        task: &str,
        cfg: &Config,
        now: i64,
        scorer: &F,
    ) -> (r: Result<(i64, i64), Error>)
        requires
            old(self)@.wf(),
            old(self)@.refusal(task@) is None ==> old(self)@.has_room(task@, now),
            forall|e: ScoreExpr| call_requires(*scorer, (e,)),
        ensures
            final(self)@.wf(),
            match old(self)@.refusal(task@) {
                Some(e) => final(self)@ == old(self)@ && (r matches Err(x) && x@ == e),
                None => r == Ok::<(i64, i64), Error>(
                    (old(self)@.next_number(task@), old(self)@.folders.len() as i64),
                ) && exists|scores: Seq<Score>|
                    #![trigger old(self)@.opened(task@, now, scores)]
                    state::scored_by(
                        *scorer,
                        old(self)@.plan(task@, cfg.strategy, now),
                        scores,
                    ) && final(self)@ == old(self)@.opened(task@, now, scores),
            },
    {
        let exprs = match self.plan_sweep(task, cfg, now) {
            Ok(exprs) => exprs,
            Err(e) => return Err(e),
        };
        let mut scores: Vec<Score> = Vec::new();
        let mut i: usize = 0;
        while i < exprs.len()
            invariant
                i <= exprs@.len(),
                scores@.len() == i,
                forall|e: ScoreExpr| call_requires(*scorer, (e,)),
                forall|j: int|
                    0 <= j < i ==> call_ensures(*scorer, (exprs@[j],), #[trigger] scores@[j]),
            decreases exprs@.len() - i,
        {
            let score = scorer(exprs[i]);
            scores.push(score);
            i = i + 1;
        }
        self.open_sweep_scored(task, now, &scores)
    }

    /// Closes the sweep in place `k` if it is still active.
    fn mark_sweep_complete(&mut self, task: &str, sweep: i64, k: usize, now: i64)
        requires
            old(self)@.wf(),
            old(self)@.sweep_at(task@, sweep) == Some(k as int),
        ensures
            final(self)@ == old(self)@.closed(task@, sweep, now),
            final(self)@.wf(),
            final(self)@.sweep_at(task@, sweep) == Some(k as int),
    {
        let ghost was = self@;
        proof {
            validity::lemma_sweep_at(was, task@, sweep);
            validity::lemma_closed(was, task@, sweep, now);
            assert(was.sweeps[k as int] == self.sweeps@[k as int]@);
        }
        if self.sweeps[k].status == SweepStatus::Active {
            self.sweeps[k].status = SweepStatus::Complete;
            self.sweeps[k].completed_at = Some(now);
        }
        assert(self@.sweeps =~= was.closed(task@, sweep, now).sweeps);
    }

    /// What is said of the finished sweep in place `k`.
    fn sweep_complete_result(&self, task: &str, sweep: i64, k: usize) -> (r: NextResult)
        requires
            k < self.sweeps@.len(),
            self@.sweep_at(task@, sweep) == Some(k as int),
        ensures
            r@ == self@.summary(task@, sweep),
    {
        assert(self@.sweeps[k as int] == self.sweeps@[k as int]@);
        let covered = self.sweeps[k].done;
        let total = self.sweeps[k].total;
        // A zero-folder sweep is almost always a missing `init` or an exclude
        // that matched everything, not real completion. Flag it.
        let note = if total == 0 {
            Some("no folders registered for this sweep - did you run `trail init`?".to_owned())
        } else {
            None
        };
        NextResult::SweepComplete { task: task.to_owned(), sweep, covered, total, note }
    }

    // --- the main entry point: claim the next folder -------------------------------

    /// Lease and return the next folder for `task`. Bootstraps the first sweep
    /// automatically; rolls into a fresh sweep only when `auto_sweep` is set.
    pub fn next<F: Fn(ScoreExpr) -> Score>(
        &mut self,
        task: &str,
        cfg: &Config,
        agent: Option<&str>,
        strategy_override: Option<Strategy>,
        auto_sweep: bool,
        now: i64,
        scorer: &F,
    ) -> (r: Result<NextResult, Error>)
        requires
            old(self)@.wf(),
            forall|e: ScoreExpr| call_requires(*scorer, (e,)),
            !text::is_blank(task@) ==> (old(self)@.prepared(
                task@,
                cfg.strategy,
                strategy_override,
                now,
            ).opening(task@, model::lent_text(agent), cfg.lease.ttl_secs, auto_sweep, now) matches Some(
                s,
            ) ==> s.has_room(task@, now)),
        ensures
            final(self)@.wf(),
            text::is_blank(task@) ==> final(self)@ == old(self)@ && (r matches Err(e) && e@
                == ErrorView::Config(ConfigIssue::EmptyTask)),
            !text::is_blank(task@) ==> ({
                let s = old(self)@.prepared(task@, cfg.strategy, strategy_override, now);
                let who = model::lent_text(agent);
                let ttl = cfg.lease.ttl_secs;
                if s.stuck(task@, who, ttl, auto_sweep, now) {
                    &&& s.opening(task@, who, ttl, auto_sweep, now) == Some(final(self)@)
                    &&& r matches Err(e) && e@ == ErrorView::Other(state::no_way_on(task@))
                } else {
                    r is Ok && state::advances(
                        s,
                        final(self)@,
                        r->Ok_0@,
                        task@,
                        cfg.strategy,
                        who,
                        ttl,
                        auto_sweep,
                        now,
                        *scorer,
                    )
                }
            }),
    {
        let strategy = match strategy_override {
            Some(s) => s,
            None => cfg.strategy.default,
        };
        let ghost was = self@;
        match self.ensure_task(task, strategy, cfg.strategy.seed, now) {
            Ok(_) => {},
            Err(e) => return Err(e),
        }
        proof {
            validity::lemma_ensured(was, task@, strategy, cfg.strategy.seed, now);
        }
        match strategy_override {
            Some(s) => {
                proof {
                    validity::lemma_with_strategy(self@, task@, s);
                }
                self.set_task_strategy(task, s);
            },
            None => {},
        }
        self.advance(task, cfg, agent, auto_sweep, now, scorer)
    }

    /// `next` for a task that is registered.
    fn advance<F: Fn(ScoreExpr) -> Score>(
        &mut self,
        task: &str,
        cfg: &Config,
        agent: Option<&str>,
        auto_sweep: bool,
        now: i64,
        scorer: &F,
    ) -> (r: Result<NextResult, Error>)
        requires
            old(self)@.wf(),
            old(self)@.task_at(task@) is Some,
            forall|e: ScoreExpr| call_requires(*scorer, (e,)),
            old(self)@.opening(
                task@,
                model::lent_text(agent),
                cfg.lease.ttl_secs,
                auto_sweep,
                now,
            ) matches Some(s) ==> s.has_room(task@, now),
        ensures
            final(self)@.wf(),
            ({
                let s = old(self)@;
                let who = model::lent_text(agent);
                let ttl = cfg.lease.ttl_secs;
                if s.stuck(task@, who, ttl, auto_sweep, now) {
                    &&& s.opening(task@, who, ttl, auto_sweep, now) == Some(final(self)@)
                    &&& r matches Err(e) && e@ == ErrorView::Other(state::no_way_on(task@))
                } else {
                    r is Ok && state::advances(
                        s,
                        final(self)@,
                        r->Ok_0@,
                        task@,
                        cfg.strategy,
                        who,
                        ttl,
                        auto_sweep,
                        now,
                        *scorer,
                    )
                }
            }),
    {
        let ghost s = self@;
        let ghost who = model::lent_text(agent);
        let ghost ttl = cfg.lease.ttl_secs;
        match self.try_newest(task, agent, cfg.lease.ttl_secs, auto_sweep, now) {
            Some(r) => {
                assert(s.next_step(task@, who, ttl, auto_sweep, now, Seq::<Score>::empty()) == (
                    self@,
                    r@,
                ));
                return Ok(r);
            },
            None => {},
        }
        let ghost from = self@;
        match self.refusal(task) {
            Some(_) => {
                // An older sweep is still active, which no further attempt can change.
                let mut m = "next: too many sweep transitions for task ".to_owned();
                m.append(text::quoted(task).as_str());
                return Err(Error::Other(m));
            },
            None => {},
        }
        let r = self.open_and_claim(task, cfg, agent, now, scorer);
        proof {
            let scores = choose|scores: Seq<Score>|
                #![trigger state::scored_by(*scorer, from.plan(task@, cfg.strategy, now), scores)]
                state::scored_by(*scorer, from.plan(task@, cfg.strategy, now), scores) && (
                    self@,
                    r->Ok_0@,
                ) == from.open_and_claim(task@, who, ttl, now, scores);
            assert(s.next_step(task@, who, ttl, auto_sweep, now, scores) == (self@, r->Ok_0@));
        }
        r
    }

    /// What `next` does with a task's newest sweep. Where it is to open another
    /// sweep, the newest one is closed and there is no answer yet.
    fn try_newest(
        &mut self,
        task: &str,
        agent: Option<&str>,
        ttl: i64,
        auto_sweep: bool,
        now: i64,
    ) -> (r: Option<NextResult>)
        requires
            old(self)@.wf(),
            old(self)@.task_at(task@) is Some,
        ensures
            final(self)@.wf(),
            match old(self)@.opening(task@, model::lent_text(agent), ttl, auto_sweep, now) {
                Some(s) => r is None && final(self)@ == s,
                None => r matches Some(v) && (final(self)@, v@) == old(self)@.next_here(
                    task@,
                    model::lent_text(agent),
                    ttl,
                    now,
                ),
            },
    {
        let ghost s = self@;
        let ghost who = model::lent_text(agent);
        proof {
            validity::lemma_latest(s, task@);
        }
        let k: usize = match self.latest_sweep(task) {
            None => return None,
            Some(k) => k,
        };
        assert(s.sweeps[k as int] == self.sweeps@[k as int]@);
        let sweep = self.sweeps[k].sweep;
        if self.sweeps[k].status == SweepStatus::Complete {
            if !auto_sweep {
                // Finished, and not asked to auto-advance: report it.
                return Some(self.sweep_complete_result(task, sweep, k));
            }
            return None;
        }
        proof {
            validity::lemma_drained(s, task@, who, ttl, now);
        }
        let claimed = self.claim(task, sweep, k, agent, ttl, now);
        let drained = match claimed {
            ClaimOutcome::Empty => true,
            _ => false,
        };
        if auto_sweep && drained {
            // Roll into a new sweep.
            self.mark_sweep_complete(task, sweep, k, now);
            return None;
        }
        Some(self.settle(task, sweep, k, claimed, now))
    }

    /// Opens a sweep for a task that has no active one and claims its first
    /// folder.
    fn open_and_claim<F: Fn(ScoreExpr) -> Score>(
        &mut self,
        task: &str,
        cfg: &Config,
        agent: Option<&str>,
        now: i64,
        scorer: &F,
    ) -> (r: Result<NextResult, Error>)
        requires
            old(self)@.wf(),
            old(self)@.refusal(task@) is None,
            old(self)@.has_room(task@, now),
            forall|e: ScoreExpr| call_requires(*scorer, (e,)),
        ensures
            final(self)@.wf(),
            r is Ok,
            exists|scores: Seq<Score>|
                #![trigger state::scored_by(*scorer, old(self)@.plan(task@, cfg.strategy, now), scores)]
                state::scored_by(*scorer, old(self)@.plan(task@, cfg.strategy, now), scores) && (
                    final(self)@,
                    r->Ok_0@,
                ) == old(self)@.open_and_claim(
                    task@,
                    model::lent_text(agent),
                    cfg.lease.ttl_secs,
                    now,
                    scores,
                ),
    {
        let ghost was = self@;
        let (sweep, total) = match self.open_sweep(task, cfg, now, scorer) {
            Ok(p) => p,
            Err(e) => return Err(e),
        };
        let ghost scores = choose|scores: Seq<Score>|
            #![trigger was.opened(task@, now, scores)]
            state::scored_by(*scorer, was.plan(task@, cfg.strategy, now), scores) && self@
                == was.opened(task@, now, scores);
        proof {
            validity::lemma_opened(was, task@, now, scores);
            validity::lemma_sweep_at(self@, task@, sweep);
        }
        let k: usize = self.sweeps.len() - 1;
        if total == 0 {
            self.mark_sweep_complete(task, sweep, k, now);
            proof {
                validity::lemma_sweep_at(self@, task@, sweep);
            }
            return Ok(self.sweep_complete_result(task, sweep, k));
        }
        let claimed = self.claim(task, sweep, k, agent, cfg.lease.ttl_secs, now);
        Ok(self.settle(task, sweep, k, claimed, now))
    }

    /// What `next` makes of a claim on the sweep in place `k`.
    fn settle(
        &mut self,
        task: &str,
        sweep: i64,
        k: usize,
        claimed: ClaimOutcome,
        now: i64,
    ) -> (r: NextResult)
        requires
            old(self)@.wf(),
            old(self)@.sweep_at(task@, sweep) == Some(k as int),
        ensures
            final(self)@.wf(),
            (final(self)@, r@) == old(self)@.settled(task@, sweep, claimed@, now),
    {
        match claimed {
            ClaimOutcome::Leased { path, score, expires, remaining } => NextResult::Claimed {
                task: task.to_owned(),
                sweep,
                path,
                score,
                lease_expires_at: expires,
                remaining,
            },
            ClaimOutcome::NoneAvailable { leased } => NextResult::NoneAvailable {
                task: task.to_owned(),
                sweep,
                leased_outstanding: leased,
            },
            ClaimOutcome::Empty => {
                self.mark_sweep_complete(task, sweep, k, now);
                proof {
                    validity::lemma_sweep_at(self@, task@, sweep);
                }
                self.sweep_complete_result(task, sweep, k)
            },
        }
    }

    /// Claim: reclaim expired leases, then lease the top-priority pending row.
    fn claim(
        &mut self,
        task: &str,
        sweep: i64,
        k: usize,
        agent: Option<&str>,
        ttl: i64,
        now: i64,
    ) -> (r: ClaimOutcome)
        requires
            old(self)@.wf(),
            old(self)@.sweep_at(task@, sweep) == Some(k as int),
        ensures
            (final(self)@, r@) == old(self)@.claim(
                task@,
                sweep,
                model::lent_text(agent),
                ttl,
                now,
            ),
            final(self)@.wf(),
            final(self)@.sweep_at(task@, sweep) == Some(k as int),
    {
        let ghost start = self@;
        self.reclaim(k, task, sweep, now);
        let ghost was = self@;
        proof {
            validity::lemma_reclaimed(start, task@, sweep, now);
            validity::lemma_claim(start, task@, sweep, model::lent_text(agent), ttl, now);
            validity::lemma_sweep_at(was, task@, sweep);
            validity::lemma_counters(was, k as int);
            assert(was.sweeps[k as int] == self.sweeps@[k as int]@);
        }
        let f = |w: &WorkRow| -> (r: Option<(i64, i64)>)
            ensures
                state::by_score(task@, sweep)(w@) == tally::lifted(r),
            {
                if w.sweep == sweep && w.status == WorkStatus::Pending && text::same(
                    w.task.as_str(),
                    task,
                ) {
                    Some((w.score.key, 0))
                } else {
                    None
                }
            };
        match tally::first(&self.work, f, Ghost(state::by_score(task@, sweep))) {
            Some(i) => {
                // Saturate: a lease must never look already expired.
                let expires = lease_end(now, ttl);
                let path = self.work[i].path.clone();
                let score = self.work[i].score;
                assert(was.work[i as int] == self.work@[i as int]@);
                self.work[i].status = WorkStatus::Leased;
                self.work[i].lease_owner = owned(agent);
                self.work[i].lease_expires_at = Some(expires);
                proof {
                    assert(self@.work =~= was.work.update(
                        i as int,
                        was.work[i as int].lent(model::lent_text(agent), expires),
                    ));
                    let row = was.sweeps[k as int];
                    assert(-ROW_LIMIT <= row.counter(WorkStatus::Leased) <= 2 * ROW_LIMIT);
                    assert(-ROW_LIMIT <= row.counter(WorkStatus::Pending) <= 2 * ROW_LIMIT);
                }
                self.move_counter(k, WorkStatus::Pending, WorkStatus::Leased, 1);
                assert(self@.sweeps[k as int] == self.sweeps@[k as int]@);
                let remaining = self.sweeps[k].pending;
                ClaimOutcome::Leased { path, score, expires, remaining }
            },
            None => {
                let leased = self.sweeps[k].leased;
                if leased > 0 {
                    ClaimOutcome::NoneAvailable { leased }
                } else {
                    ClaimOutcome::Empty
                }
            },
        }
    }

    /// Returns the expired leases of the sweep in place `k` to the pool.
    fn reclaim(&mut self, k: usize, task: &str, sweep: i64, now: i64)
        requires
            old(self)@.wf(),
            old(self)@.sweep_at(task@, sweep) == Some(k as int),
        ensures
            final(self)@ == old(self)@.reclaimed(task@, sweep, now),
    {
        let ghost was = self@;
        let ghost p = state::due(task@, sweep, now);
        let ghost target = was.reclaimed(task@, sweep, now).work;
        let mut n: usize = 0;
        let mut i: usize = 0;
        while i < self.work.len()
            invariant
                was.wf(),
                i <= self.work@.len(),
                self.work@.len() == was.work.len(),
                target == was.reclaimed(task@, sweep, now).work,
                p == state::due(task@, sweep, now),
                n == tally::count(was.work.take(i as int), p),
                n <= i,
                forall|j: int| 0 <= j < i ==> (#[trigger] self.work@[j])@ == target[j],
                forall|j: int| i <= j < self.work@.len() ==> (#[trigger] self.work@[j])@ == was.work[j],
                self@ == (StoreView { work: self@.work, ..was }),
            decreases self.work@.len() - i,
        {
            proof {
                tally::lemma_count_step(was.work, p, i as int);
                assert(self.work@[i as int]@ == was.work[i as int]);
            }
            let row = &self.work[i];
            let due = row.sweep == sweep && lease_over(row, now) && text::same(
                row.task.as_str(),
                task,
            );
            if due {
                self.work[i].status = WorkStatus::Pending;
                self.work[i].lease_owner = None;
                self.work[i].lease_expires_at = None;
                n = n + 1;
                assert(self.work@[i as int]@ == target[i as int]);
            }
            i = i + 1;
        }
        proof {
            assert(was.work.take(was.work.len() as int) =~= was.work);
            assert(self@.work =~= target);
            validity::lemma_sweep_at(was, task@, sweep);
            validity::lemma_counters(was, k as int);
            let row = was.sweeps[k as int];
            assert(-ROW_LIMIT <= row.counter(WorkStatus::Leased) <= 2 * ROW_LIMIT);
            assert(-ROW_LIMIT <= row.counter(WorkStatus::Pending) <= 2 * ROW_LIMIT);
        }
        self.move_counter(k, WorkStatus::Leased, WorkStatus::Pending, n as i64);
    }

    /// Changes the counters of the sweep in place `k`.
    fn move_counter(&mut self, k: usize, from: WorkStatus, to: WorkStatus, n: i64)
        requires
            k < old(self).sweeps@.len(),
            from != to,
            i64::MIN <= old(self)@.sweeps[k as int].counter(from) - n <= i64::MAX,
            i64::MIN <= old(self)@.sweeps[k as int].counter(to) + n <= i64::MAX,
        ensures
            final(self).work == old(self).work,
            final(self)@ == (StoreView {
                sweeps: old(self)@.sweeps.update(
                    k as int,
                    old(self)@.sweeps[k as int].moved(from, to, n as int),
                ),
                ..old(self)@
            }),
    {
        let ghost was = self@;
        assert(was.sweeps[k as int] == self.sweeps@[k as int]@);
        match from {
            WorkStatus::Pending => {
                self.sweeps[k].pending = self.sweeps[k].pending - n;
            },
            WorkStatus::Leased => {
                self.sweeps[k].leased = self.sweeps[k].leased - n;
            },
            WorkStatus::Done => {
                self.sweeps[k].done = self.sweeps[k].done - n;
            },
            WorkStatus::Skipped => {
                self.sweeps[k].skipped = self.sweeps[k].skipped - n;
            },
        }
        match to {
            WorkStatus::Pending => {
                self.sweeps[k].pending = self.sweeps[k].pending + n;
            },
            WorkStatus::Leased => {
                self.sweeps[k].leased = self.sweeps[k].leased + n;
            },
            WorkStatus::Done => {
                self.sweeps[k].done = self.sweeps[k].done + n;
            },
            WorkStatus::Skipped => {
                self.sweeps[k].skipped = self.sweeps[k].skipped + n;
            },
        }
        assert(self@.sweeps =~= was.sweeps.update(
            k as int,
            was.sweeps[k as int].moved(from, to, n as int),
        ));
    }

    // --- completion ----------------------------------------------------------------

    /// Mark a folder done/skipped and append it to the task's history.
    ///
    /// The path is normalized to the stored form, then resolved to the sweep
    /// where it is actually outstanding (preferring the sweep this `agent`
    /// leased it in), rather than blindly the newest sweep. Re-completing an
    /// already-terminal folder is idempotent. A path that is not a work item in
    /// any sweep is an error, so a typo or a missed `init` is not silently
    /// reported as success.
    pub fn complete(
        &mut self,
        task: &str,
        path: &str,
        agent: Option<&str>,
        status: WorkStatus,
        reason: Option<&str>,
        found: Option<i64>,
        now: i64,
    ) -> (r: Result<CompleteResult, Error>)
        requires
            old(self)@.wf(),
        ensures
            final(self)@.wf(),
            match old(self)@.complete(
                task@,
                walk::stored_form(path@),
                model::lent_text(agent),
                status,
                model::lent_text(reason),
                found,
                now,
            ) {
                Ok((s, v)) => final(self)@ == s && (r matches Ok(c) && c@ == v),
                Err(e) => final(self)@ == old(self)@ && (r matches Err(x) && x@ == e),
            },
    {
        if !status.is_terminal() {
            let name = if status == WorkStatus::Pending {
                "Pending"
            } else {
                "Leased"
            };
            return Err(
                Error::Other(
                    text::join("complete() requires a terminal status (done/skipped), got ", name),
                ),
            );
        }
        let path = walk::normalize_rel(path);
        let f = |w: &WorkRow| -> (r: Option<(i64, i64)>)
            ensures
                state::by_relevance(task@, path@, model::lent_text(agent))(w@) == tally::lifted(r),
            {
                if text::same(w.path.as_str(), path.as_str()) && text::same(w.task.as_str(), task) {
                    let outstanding: i64 = if w.status.is_terminal() {
                        0
                    } else {
                        2
                    };
                    let own: i64 = match (&w.lease_owner, agent) {
                        (Some(owner), Some(name)) => if text::same(owner.as_str(), name) {
                            1
                        } else {
                            0
                        },
                        _ => 0,
                    };
                    Some((outstanding + own, w.sweep))
                } else {
                    None
                }
            };
        let ghost rank = state::by_relevance(task@, path@, model::lent_text(agent));
        let i = match tally::first(&self.work, f, Ghost(rank)) {
            Some(i) => i,
            None => {
                let mut m = "path ".to_owned();
                m.append(text::quoted(path.as_str()).as_str());
                m.append(" is not a work item in any sweep of task ");
                m.append(text::quoted(task).as_str());
                m.append(" (typo, wrong --task, or excluded by config?)");
                return Err(Error::NotInSweep(m));
            },
        };
        let ghost was = self@;
        let ghost row = was.work[i as int];
        proof {
            tally::lemma_top(was.work, rank);
            assert(rank(row) is Some);
            assert(row == self.work@[i as int]@);
            validity::lemma_placed(was, i as int);
        }
        let sweep = self.work[i].sweep;
        let before = self.work[i].status;
        let k: usize = self.sweep_at(task, sweep).unwrap();
        let result_status = if before.is_terminal() {
            before
        } else {
            proof {
                validity::lemma_covered(
                    was,
                    i as int,
                    model::lent_text(agent),
                    status,
                    model::lent_text(reason),
                    found,
                    now,
                );
            }
            self.cover(i, k, agent, status, reason, found, now);
            status
        };
        let ghost mid = self@;
        proof {
            validity::lemma_sweep_at(mid, task@, sweep);
            validity::lemma_counters(mid, k as int);
            assert(mid.sweeps[k as int] == self.sweeps@[k as int]@);
            assert(-ROW_LIMIT <= mid.sweeps[k as int].counter(WorkStatus::Pending) <= 2 * ROW_LIMIT);
            assert(-ROW_LIMIT <= mid.sweeps[k as int].counter(WorkStatus::Leased) <= 2 * ROW_LIMIT);
        }
        let remaining = self.sweeps[k].pending + self.sweeps[k].leased;
        if remaining == 0 {
            self.mark_sweep_complete(task, sweep, k, now);
        }
        Ok(
            CompleteResult {
                status: result_status.as_str().to_owned(),
                task: task.to_owned(),
                sweep,
                path,
                remaining,
                sweep_complete: remaining == 0 && !before.is_terminal(),
            },
        )
    }

    /// Marks the outstanding work row in place `i` covered, records the visit
    /// and moves the counters of its sweep, which stands in place `k`.
    fn cover(
        &mut self,
        i: usize,
        k: usize,
        agent: Option<&str>,
        status: WorkStatus,
        reason: Option<&str>,
        found: Option<i64>,
        now: i64,
    )
        requires
            old(self)@.wf(),
            i < old(self).work@.len(),
            old(self)@.work[i as int].status.outstanding(),
            status.terminal(),
            old(self)@.sweep_at(old(self)@.work[i as int].task, old(self)@.work[i as int].sweep)
                == Some(k as int),
        ensures
            final(self)@ == old(self)@.covered(
                i as int,
                model::lent_text(agent),
                status,
                model::lent_text(reason),
                found,
                now,
            ),
    {
        let ghost was = self@;
        let ghost row = was.work[i as int];
        let ghost counted = was.sweeps[k as int];
        proof {
            assert(row == self.work@[i as int]@);
            validity::lemma_sweep_at(was, row.task, row.sweep);
            validity::lemma_counters(was, k as int);
            assert(-ROW_LIMIT <= counted.counter(row.status) <= 2 * ROW_LIMIT);
            assert(-ROW_LIMIT <= counted.counter(status) <= 2 * ROW_LIMIT);
        }
        let from = self.work[i].status;
        let visit = VisitRow {
            task: self.work[i].task.clone(),
            path: self.work[i].path.clone(),
            sweep: self.work[i].sweep,
            visited_at: now,
            agent: owned(agent),
            status,
            reason: owned(reason),
            outcome: found,
        };
        self.work[i].status = status;
        self.work[i].visited_at = Some(now);
        self.work[i].lease_owner = None;
        self.work[i].lease_expires_at = None;
        assert(self@.work =~= was.work.update(i as int, row.finished(status, now)));
        let ghost v = visit@;
        self.visits.push(visit);
        assert(self@.visits =~= was.visits.push(v));
        self.move_counter(k, from, status, 1);
    }

    // --- reporting -----------------------------------------------------------------

    /// Progress of a task's newest sweep.
    pub fn status(&self, task: &str) -> (r: Result<StatusReport, Error>)
        ensures
            r matches Ok(v) && v@ == self@.status(task@),
    {
        match self.latest_sweep(task) {
            None => Ok(
                StatusReport {
                    task: task.to_owned(),
                    sweep: 0,
                    sweep_status: "none".to_owned(),
                    total: 0,
                    done: 0,
                    leased: 0,
                    pending: 0,
                    skipped: 0,
                    percent: Percent { part: 0, whole: 1 },
                },
            ),
            Some(k) => {
                let s = &self.sweeps[k];
                assert(self@.sweeps[k as int] == s@);
                let percent = if s.total > 0 {
                    Percent { part: s.done, whole: s.total }
                } else {
                    Percent { part: 0, whole: 1 }
                };
                Ok(
                    StatusReport {
                        task: task.to_owned(),
                        sweep: s.sweep,
                        sweep_status: s.status.as_str().to_owned(),
                        total: s.total,
                        done: s.done,
                        leased: s.leased,
                        pending: s.pending,
                        skipped: s.skipped,
                        percent,
                    },
                )
            },
        }
    }

    /// The folders of a task's newest sweep, of one status or of all, the
    /// highest score first.
    pub fn list(&self, task: &str, filter: Option<WorkStatus>) -> (r: Result<Vec<ListRow>, Error>)
        ensures
            r matches Ok(v) && listing::in_order(tally::views(v@)) && tally::views(
                v@,
            ).to_multiset() == self@.shown(task@, filter).to_multiset(),
    {
        let mut rows: Vec<ListRow> = Vec::new();
        let k: usize = match self.latest_sweep(task) {
            Some(k) => k,
            None => {
                assert(tally::views(rows@) =~= self@.shown(task@, filter));
                return Ok(rows);
            },
        };
        assert(self@.sweeps[k as int] == self.sweeps@[k as int]@);
        let sweep: i64 = self.sweeps[k].sweep;
        let ghost p = state::visible(task@, sweep, filter);
        let ghost show = |w: WorkView| w.listed();
        let mut i: usize = 0;
        proof {
            reveal(Seq::filter);
            assert(tally::views(rows@) =~= self@.work.take(0).filter(p).map_values(show));
        }
        while i < self.work.len()
            invariant
                i <= self.work@.len(),
                p == state::visible(task@, sweep, filter),
                show == (|w: WorkView| w.listed()),
                tally::views(rows@) == self@.work.take(i as int).filter(p).map_values(show),
            decreases self.work@.len() - i,
        {
            let w = &self.work[i];
            let ghost was = tally::views(rows@);
            proof {
                reveal(Seq::filter);
                assert(self@.work[i as int] == w@);
                assert(self@.work.take(i + 1).drop_last() =~= self@.work.take(i as int));
                assert(self@.work.take(i + 1).last() == w@);
            }
            let wanted = match filter {
                Some(f) => w.status == f,
                None => true,
            };
            if wanted && w.sweep == sweep && text::same(w.task.as_str(), task) {
                let row = ListRow {
                    path: w.path.clone(),
                    status: w.status.as_str().to_owned(),
                    score: w.score,
                    lease_owner: match &w.lease_owner {
                        Some(o) => Some(o.clone()),
                        None => None,
                    },
                    lease_expires_at: w.lease_expires_at,
                    visited_at: w.visited_at,
                };
                assert(row@ =~= w@.listed());
                rows.push(row);
                assert(tally::views(rows@) =~= was.push(w@.listed()));
                assert(tally::views(rows@) =~= self@.work.take(i + 1).filter(p).map_values(show));
            }
            i = i + 1;
        }
        assert(self@.work.take(self.work@.len() as int) =~= self@.work);
        assert(tally::views(rows@) =~= self@.shown(task@, filter));
        Ok(listing::arranged(rows))
    }

    /// A task's newest sweep.
    pub fn sweep_info(&self, task: &str) -> (r: Result<SweepInfo, Error>)
        ensures
            r matches Ok(v) && v@ == self@.info(task@),
    {
        match self.latest_sweep(task) {
            None => Ok(
                SweepInfo {
                    task: task.to_owned(),
                    sweep: 0,
                    sweep_status: "none".to_owned(),
                    total: 0,
                    started_at: None,
                    completed_at: None,
                },
            ),
            Some(k) => {
                let s = &self.sweeps[k];
                assert(self@.sweeps[k as int] == s@);
                Ok(
                    SweepInfo {
                        task: task.to_owned(),
                        sweep: s.sweep,
                        sweep_status: s.status.as_str().to_owned(),
                        total: s.total,
                        started_at: Some(s.started_at),
                        completed_at: s.completed_at,
                    },
                )
            },
        }
    }

    // --- control -------------------------------------------------------------------

    /// Explicitly open a fresh sweep (`trail sweep new`). It is refused while a
    /// sweep is still active, so an in-progress sweep is never orphaned.
    pub fn open_new_sweep<F: Fn(ScoreExpr) -> Score>(
        &mut self,
        task: &str,
        cfg: &Config,
        now: i64,
        scorer: &F,
    ) -> (r: Result<SweepInfo, Error>)
        requires
            old(self)@.wf(),
            forall|e: ScoreExpr| call_requires(*scorer, (e,)),
            !text::is_blank(task@) && old(self)@.prepared(task@, cfg.strategy, None, now).refusal(
                task@,
            ) is None ==> old(self)@.prepared(task@, cfg.strategy, None, now).has_room(task@, now),
        ensures
            final(self)@.wf(),
            text::is_blank(task@) ==> final(self)@ == old(self)@ && (r matches Err(e) && e@
                == ErrorView::Config(ConfigIssue::EmptyTask)),
            !text::is_blank(task@) ==> ({
                let s = old(self)@.prepared(task@, cfg.strategy, None, now);
                match s.refusal(task@) {
                    Some(e) => final(self)@ == s && (r matches Err(x) && x@ == e),
                    None => (r matches Ok(v) && v@ == final(self)@.info(task@)) && exists|
                        scores: Seq<Score>,
                    |
                        #![trigger s.opened(task@, now, scores)]
                        state::scored_by(*scorer, s.plan(task@, cfg.strategy, now), scores)
                            && final(self)@ == s.opened(task@, now, scores),
                }
            }),
    {
        match self.ensure_task(task, cfg.strategy.default, cfg.strategy.seed, now) {
            Ok(_) => {},
            Err(e) => return Err(e),
        }
        match self.open_sweep(task, cfg, now, scorer) {
            Ok(_) => {},
            Err(e) => return Err(e),
        }
        self.sweep_info(task)
    }

    /// Clear a task's sweeps, and its history too if `all` is set.
    pub fn reset(&mut self, task: &str, all: bool) -> (r: Result<ResetResult, Error>)
        requires
            old(self)@.keyed(),
            old(self)@.sweeps.len() <= ROW_LIMIT,
        ensures
            final(self)@.keyed(),
            old(self)@.wf() ==> final(self)@.wf(),
            final(self)@ == old(self)@.reset(task@, all),
            r matches Ok(v) && v@ == old(self)@.reset_view(task@, all),
    {
        let ghost was = self@;
        proof {
            validity::lemma_reset(was, task@, all);
            validity::lemma_task_at(was, task@);
        }
        let f = |s: &SweepRow| -> (r: bool)
            ensures
                r == state::sweep_of(task@)(s@),
            { text::same(s.task.as_str(), task) };
        let cleared_sweeps = tally::number(&self.sweeps, f, Ghost(state::sweep_of(task@))) as i64;
        let mut work: Vec<WorkRow> = Vec::new();
        std::mem::swap(&mut work, &mut self.work);
        let g = |w: &WorkRow| -> (r: bool)
            ensures
                r == state::work_elsewhere(task@)(w@),
            { !text::same(w.task.as_str(), task) };
        self.work = tally::kept(work, g, Ghost(state::work_elsewhere(task@)));
        let mut sweeps: Vec<SweepRow> = Vec::new();
        std::mem::swap(&mut sweeps, &mut self.sweeps);
        let h = |s: &SweepRow| -> (r: bool)
            ensures
                r == state::sweep_elsewhere(task@)(s@),
            { !text::same(s.task.as_str(), task) };
        self.sweeps = tally::kept(sweeps, h, Ghost(state::sweep_elsewhere(task@)));
        match self.task_at(task) {
            Some(k) => {
                assert(was.tasks[k as int] == self.tasks@[k as int]@);
                self.tasks[k].current_sweep = 0;
            },
            None => {},
        }
        assert(self@.tasks =~= was.reset(task@, all).tasks);
        if all {
            let mut visits: Vec<VisitRow> = Vec::new();
            std::mem::swap(&mut visits, &mut self.visits);
            let v = |v: &VisitRow| -> (r: bool)
                ensures
                    r == state::visit_elsewhere(task@)(v@),
                { !text::same(v.task.as_str(), task) };
            self.visits = tally::kept(visits, v, Ghost(state::visit_elsewhere(task@)));
        }
        Ok(ResetResult { task: task.to_owned(), cleared_sweeps, cleared_history: all })
    }

    /// Reclaim expired leases across all sweeps.
    pub fn gc(&mut self, now: i64) -> (r: Result<GcResult, Error>)
        requires
            old(self)@.keyed(),
            old(self)@.countable(),
        ensures
            old(self)@.wf() ==> final(self)@.wf(),
            final(self)@ == old(self)@.swept(now),
            r matches Ok(v) && v.reclaimed_leases == tally::count(
                old(self)@.work,
                state::due_anywhere(now),
            ),
    {
        let ghost was = self@;
        let ghost target = was.swept(now);
        let ghost p = state::due_anywhere(now);
        proof {
            if was.wf() {
                validity::lemma_swept(was, now);
            }
            assert(self@.sweeps =~= swept_until(was, 0, now));
        }
        let mut n: usize = 0;
        let mut i: usize = 0;
        while i < self.work.len()
            invariant
                was.keyed(),
                was.countable(),
                i <= self.work@.len(),
                self.work@.len() == was.work.len(),
                target == was.swept(now),
                p == state::due_anywhere(now),
                n <= i,
                n == tally::count(was.work.take(i as int), p),
                forall|j: int| 0 <= j < i ==> (#[trigger] self.work@[j])@ == target.work[j],
                forall|j: int| i <= j < self.work@.len() ==> (#[trigger] self.work@[j])@ == was.work[j],
                self@ == (StoreView {
                    work: self@.work,
                    sweeps: swept_until(was, i as int, now),
                    ..was
                }),
            decreases self.work@.len() - i,
        {
            let ghost row = was.work[i as int];
            let ghost mid = self@.sweeps;
            proof {
                tally::lemma_count_step(was.work, p, i as int);
                assert(self.work@[i as int]@ == row);
                assert forall|q: int| 0 <= q < was.sweeps.len() implies tally::count(
                    was.work.take(i + 1),
                    #[trigger] state::due(was.sweeps[q].task, was.sweeps[q].sweep, now),
                ) == tally::count(
                    was.work.take(i as int),
                    state::due(was.sweeps[q].task, was.sweeps[q].sweep, now),
                ) + if row.expired(now) && row.belongs(was.sweeps[q].task, was.sweeps[q].sweep) {
                    1nat
                } else {
                    0nat
                } by {
                    tally::lemma_count_step(
                        was.work,
                        state::due(was.sweeps[q].task, was.sweeps[q].sweep, now),
                        i as int,
                    );
                }
            }
            if lease_over(&self.work[i], now) {
                let sweep = self.work[i].sweep;
                proof {
                    validity::lemma_sweep_at(was, row.task, row.sweep);
                    tally::lemma_top_same(was.sweeps, mid, state::by_number(row.task, row.sweep));
                }
                let found = self.sweep_at(self.work[i].task.as_str(), sweep);
                self.work[i].status = WorkStatus::Pending;
                self.work[i].lease_owner = None;
                self.work[i].lease_expires_at = None;
                assert(self.work@[i as int]@ == target.work[i as int]);
                match found {
                    Some(k) => {
                        proof {
                            let r = was.sweeps[k as int];
                            let due = state::due(r.task, r.sweep, now);
                            tally::lemma_count_bound(was.work.take(i as int), due);
                            validity::lemma_counters(was, k as int);
                            assert(-ROW_LIMIT <= r.counter(WorkStatus::Leased) <= 2 * ROW_LIMIT);
                            assert(-ROW_LIMIT <= r.counter(WorkStatus::Pending) <= 2 * ROW_LIMIT);
                        }
                        self.move_counter(k, WorkStatus::Leased, WorkStatus::Pending, 1);
                    },
                    None => {},
                }
                n = n + 1;
            }
            assert(self@.sweeps =~= swept_until(was, i + 1, now));
            i = i + 1;
        }
        proof {
            assert(was.work.take(was.work.len() as int) =~= was.work);
            assert(self@.work =~= target.work);
            assert(self@.sweeps =~= target.sweeps);
        }
        Ok(GcResult { reclaimed_leases: n as i64 })
    }

    /// Recompute every sweep's counters from the board, repairing any drift. A
    /// safety/repair path (the counters are maintained correctly on the hot
    /// path); exposed via `trail gc --reconcile`.
    pub fn reconcile(&mut self) -> (r: Result<(), Error>)
        requires
            old(self)@.work.len() <= ROW_LIMIT,
        ensures
            r is Ok,
            final(self)@ == old(self)@.reconciled(),
            final(self)@.consistent(),
            final(self)@.countable(),
            old(self)@.keyed() ==> final(self)@.keyed(),
            old(self)@.wf() ==> final(self)@.wf(),
    {
        let ghost was = self@;
        let ghost target = was.reconciled();
        proof {
            validity::lemma_reconciled(was);
        }
        let mut k: usize = 0;
        while k < self.sweeps.len()
            invariant
                was.work.len() <= ROW_LIMIT,
                k <= self.sweeps@.len(),
                self.sweeps@.len() == was.sweeps.len(),
                target == was.reconciled(),
                forall|j: int| 0 <= j < k ==> (#[trigger] self.sweeps@[j])@ == target.sweeps[j],
                forall|j: int|
                    k <= j < self.sweeps@.len() ==> (#[trigger] self.sweeps@[j])@ == was.sweeps[j],
                self@ == (StoreView { sweeps: self@.sweeps, ..was }),
            decreases self.sweeps@.len() - k,
        {
            assert(self.sweeps@[k as int]@ == was.sweeps[k as int]);
            let task = self.sweeps[k].task.as_str();
            let sweep = self.sweeps[k].sweep;
            let total = self.live_total(task, sweep) as i64;
            let pending = self.live(task, sweep, WorkStatus::Pending) as i64;
            let leased = self.live(task, sweep, WorkStatus::Leased) as i64;
            let done = self.live(task, sweep, WorkStatus::Done) as i64;
            let skipped = self.live(task, sweep, WorkStatus::Skipped) as i64;
            self.sweeps[k].total = total;
            self.sweeps[k].pending = pending;
            self.sweeps[k].leased = leased;
            self.sweeps[k].done = done;
            self.sweeps[k].skipped = skipped;
            assert(self.sweeps@[k as int]@ == target.sweeps[k as int]);
            k = k + 1;
        }
        assert(self@.sweeps =~= target.sweeps);
        Ok(())
    }

    /// How many folders of a sweep's board are in a status.
    fn live(&self, task: &str, sweep: i64, status: WorkStatus) -> (r: usize)
        ensures
            r == self@.live(task@, sweep, status),
            r <= self.work@.len(),
    {
        let f = |w: &WorkRow| -> (r: bool)
            ensures
                r == state::of_status(task@, sweep, status)(w@),
            { w.sweep == sweep && w.status == status && text::same(w.task.as_str(), task) };
        tally::number(&self.work, f, Ghost(state::of_status(task@, sweep, status)))
    }

    /// How many folders a sweep's board has.
    fn live_total(&self, task: &str, sweep: i64) -> (r: usize)
        ensures
            r == self@.live_total(task@, sweep),
            r <= self.work@.len(),
    {
        let f = |w: &WorkRow| -> (r: bool)
            ensures
                r == state::of_sweep(task@, sweep)(w@),
            { w.sweep == sweep && text::same(w.task.as_str(), task) };
        tally::number(&self.work, f, Ghost(state::of_sweep(task@, sweep)))
    }

    // --- validity ------------------------------------------------------------------

    /// Whether the counters can be moved with the rows of the board.
    pub fn is_countable(&self) -> (r: bool)
        ensures
            r == self@.countable(),
    {
        if self.work.len() as u128 > ROW_LIMIT as u128 {
            return false;
        }
        let mut k: usize = 0;
        while k < self.sweeps.len()
            invariant
                k <= self.sweeps@.len(),
                self.work@.len() <= ROW_LIMIT,
                forall|j: int| 0 <= j < k ==> self@.near(#[trigger] self@.sweeps[j]),
            decreases self.sweeps@.len() - k,
        {
            assert(self@.sweeps[k as int] == self.sweeps@[k as int]@);
            if !self.is_near(&self.sweeps[k]) {
                return false;
            }
            k = k + 1;
        }
        true
    }

    /// Whether rows that were read from elsewhere, with distinct keys, make a
    /// valid state.
    pub fn is_sound(&self) -> (r: bool)
        requires
            self@.keyed(),
        ensures
            r == self@.wf(),
    {
        let limit: u128 = ROW_LIMIT as u128;
        if self.folders.len() as u128 > limit || self.sweeps.len() as u128 > limit
            || !self.is_countable() {
            return false;
        }
        let mut i: usize = 0;
        while i < self.work.len()
            invariant
                self@.keyed(),
                i <= self.work@.len(),
                forall|j: int| 0 <= j < i ==> self@.placed(#[trigger] self@.work[j]),
            decreases self.work@.len() - i,
        {
            assert(self@.work[i as int] == self.work@[i as int]@);
            let w = &self.work[i];
            proof {
                validity::lemma_sweep_at(self@, w@.task, w@.sweep);
            }
            if self.sweep_at(w.task.as_str(), w.sweep).is_none() {
                assert(!self@.placed(self@.work[i as int]));
                return false;
            }
            assert(self@.placed(self@.work[i as int]));
            i = i + 1;
        }
        true
    }

    fn is_near(&self, s: &SweepRow) -> (r: bool)
        requires
            self.work@.len() <= ROW_LIMIT,
        ensures
            r == self@.near(s@),
    {
        let task = s.task.as_str();
        let p = off_by(s.pending, self.live(task, s.sweep, WorkStatus::Pending));
        let l = off_by(s.leased, self.live(task, s.sweep, WorkStatus::Leased));
        let d = off_by(s.done, self.live(task, s.sweep, WorkStatus::Done));
        let k = off_by(s.skipped, self.live(task, s.sweep, WorkStatus::Skipped));
        let t = off_by(s.total, self.live_total(task, s.sweep));
        proof {
            if p && l && d && k && t {
                assert forall|status: WorkStatus|
                    -ROW_LIMIT <= #[trigger] self@.drift(s@, status) <= ROW_LIMIT by {
                    match status {
                        WorkStatus::Pending => {},
                        WorkStatus::Leased => {},
                        WorkStatus::Done => {},
                        WorkStatus::Skipped => {},
                    }
                }
            } else {
                assert(self@.near(s@) ==> {
                    &&& -ROW_LIMIT <= self@.drift(s@, WorkStatus::Pending) <= ROW_LIMIT
                    &&& -ROW_LIMIT <= self@.drift(s@, WorkStatus::Leased) <= ROW_LIMIT
                    &&& -ROW_LIMIT <= self@.drift(s@, WorkStatus::Done) <= ROW_LIMIT
                    &&& -ROW_LIMIT <= self@.drift(s@, WorkStatus::Skipped) <= ROW_LIMIT
                });
            }
        }
        p && l && d && k && t
    }
}

/// An owned copy of an optional text.
fn owned(s: Option<&str>) -> (r: Option<String>)
    ensures
        model::owned_text(r) == model::lent_text(s),
{
    match s {
        Some(t) => Some(t.to_owned()),
        None => None,
    }
}

/// When a lease taken at `now` ends.
fn lease_end(now: i64, ttl: i64) -> (r: i64)
    ensures
        r == state::lease_end(now, ttl),
{
    match now.checked_add(ttl) {
        Some(t) => t,
        None => i64::MAX,
    }
}

/// Whether a row's lease ran out before `now`.
fn lease_over(row: &WorkRow, now: i64) -> (r: bool)
    ensures
        r == row@.expired(now),
{
    row.status == WorkStatus::Leased && match row.lease_expires_at {
        Some(e) => e < now,
        None => false,
    }
}

/// Place of the first folder that was named before, if there is one.
fn first_repeat(folders: &[FolderStat]) -> (r: Option<usize>)
    ensures
        state::first_repeat(tally::views(folders@)) == match r {
            Some(j) => Some(j as int),
            None => None,
        },
        r matches Some(j) ==> j < folders@.len(),
        r is None ==> forall|m: int| !#[trigger] state::repeats(tally::views(folders@), m),
{
    let ghost vs = tally::views(folders@);
    // A scan hands the folders over in ascending order, which shows at once that
    // none occurs twice.
    let mut sorted: usize = 1;
    while sorted < folders.len() && text::before(
        folders[sorted - 1].path.as_str(),
        folders[sorted].path.as_str(),
    )
        invariant
            1 <= sorted,
            folders@.len() > 0 ==> sorted <= folders@.len(),
            vs == tally::views(folders@),
            forall|i: int, j: int|
                #![trigger vs[i], vs[j]]
                0 <= i < j < sorted && j < vs.len() ==> text::text_before(vs[i].path, vs[j].path),
        decreases folders@.len() - sorted,
    {
        proof {
            assert forall|i: int, j: int|
                #![trigger vs[i], vs[j]]
                0 <= i < j <= sorted && j < vs.len() implies text::text_before(
                vs[i].path,
                vs[j].path,
            ) by {
                if j == sorted {
                    assert(vs[sorted - 1] == folders@[sorted - 1]@);
                    assert(vs[j] == folders@[j]@);
                    if i < sorted - 1 {
                        text::lemma_text_order(vs[i].path, vs[sorted - 1].path, vs[j].path);
                    }
                }
            }
        }
        sorted = sorted + 1;
    }
    let mut j: usize = sorted;
    proof {
        assert forall|m: int| m < j implies !#[trigger] state::repeats(vs, m) by {
            if state::repeats(vs, m) {
                let i = choose|i: int| 0 <= i < m && (#[trigger] vs[i]).path == vs[m].path;
                text::lemma_text_order(vs[i].path, vs[m].path, vs[m].path);
                assert(text::text_before(vs[i].path, vs[m].path));
            }
        }
    }
    while j < folders.len()
        invariant
            vs == tally::views(folders@),
            forall|m: int| m < j ==> !#[trigger] state::repeats(vs, m),
        decreases folders@.len() - j,
    {
        let mut i: usize = 0;
        while i < j
            invariant
                i <= j < folders@.len(),
                vs == tally::views(folders@),
                forall|m: int| m < j ==> !#[trigger] state::repeats(vs, m),
                forall|m: int| 0 <= m < i ==> (#[trigger] vs[m]).path != vs[j as int].path,
            decreases j - i,
        {
            assert(vs[i as int] == folders@[i as int]@);
            assert(vs[j as int] == folders@[j as int]@);
            if text::same(folders[i].path.as_str(), folders[j].path.as_str()) {
                assert(state::is_first_repeat(vs, j as int));
                proof {
                    let k = choose|k: int| state::is_first_repeat(vs, k);
                    assert(state::is_first_repeat(vs, k));
                }
                return Some(j);
            }
            i = i + 1;
        }
        assert(!state::repeats(vs, j as int));
        j = j + 1;
    }
    None
}

/// The greatest of some numbers; zero if there are none.
fn greatest(numbers: &Vec<Option<i64>>) -> (r: i64)
    ensures
        r == match tally::top(numbers@, state::by_size()) {
            Some(i) => numbers@[i]->0,
            None => 0,
        },
{
    let f = |n: &Option<i64>| -> (r: Option<(i64, i64)>)
        ensures
            state::by_size()(n@) == tally::lifted(r),
        {
            match n {
                Some(x) => Some((*x, 0)),
                None => None,
            }
        };
    assert(tally::views(numbers@) =~= numbers@);
    match tally::first(numbers, f, Ghost(state::by_size())) {
        Some(i) => {
            proof {
                tally::lemma_top(numbers@, state::by_size());
                assert(state::by_size()(numbers@[i as int]) is Some);
            }
            numbers[i].unwrap()
        },
        None => 0,
    }
}

/// The sweeps once the first `i` work rows were looked at for expired leases.
spec fn swept_until(s: StoreView, i: int, now: i64) -> Seq<SweepView> {
    s.sweeps.map_values(
        |r: SweepView|
            r.moved(
                WorkStatus::Leased,
                WorkStatus::Pending,
                tally::count(s.work.take(i), state::due(r.task, r.sweep, now)) as int,
            ),
    )
}

/// Whether a counter is near enough to the number that it stands for.
fn off_by(counter: i64, live: usize) -> (r: bool)
    requires
        live <= ROW_LIMIT,
    ensures
        r == (-ROW_LIMIT <= counter - live <= ROW_LIMIT),
{
    let d: i128 = counter as i128 - live as i128;
    -(ROW_LIMIT as i128) <= d && d <= ROW_LIMIT as i128
}

}
