//! The commands of the `trail` program, from plain values to plain values. The
//! process exit code carries the loop-relevant outcome so that shells and
//! language wrappers can branch without parsing:
//!
//!   0  ok / success
//!   1  internal error
//!   3  sweep-complete  (the loop should stop, or open a new sweep)
//!   4  none-available  (folders are leased elsewhere; wait briefly and retry)

use vstd::prelude::*;
use crate::config;
use crate::config::Config;
use crate::error::{ConfigIssue, Error, ErrorView};
use crate::laws;
use crate::listing;
use crate::model;
use crate::model::{
    CompleteResult, FolderView, GcResult, InitResult, ListRow, NextResult, NextView, ResetResult,
    Score, StatusReport, Strategy, SweepInfo, WorkStatus,
};
use crate::scheduler::ScoreExpr;
use crate::state;
use crate::state::{StoreView, ROW_LIMIT};
use crate::store::Store;
use crate::tally;
use crate::text;
use crate::validity;
use crate::walk;
use crate::walk::{FileEntry, FileView};

verus! {

pub const EXIT_OK: u8 = 0;

pub const EXIT_ERROR: u8 = 1;

pub const EXIT_SWEEP_COMPLETE: u8 = 3;

pub const EXIT_NONE_AVAILABLE: u8 = 4;

/// What a walk of the tree met: its files and directories, and the folder of
/// each recent change.
#[derive(Debug)]
pub struct Survey {
    pub files: Vec<FileEntry>,
    pub dirs: Vec<String>,
    pub touched: Vec<String>,
}

/// Sum of the sizes of all files.
pub open spec fn total_size(files: Seq<FileView>) -> int
    decreases files.len(),
{
    if files.len() == 0 {
        0
    } else {
        total_size(files.drop_last()) + files.last().size
    }
}

impl Survey {
    /// No size is negative, and their sum and the counts fit their types.
    pub open spec fn modest(self) -> bool {
        &&& self.files@.len() <= ROW_LIMIT
        &&& self.touched@.len() <= ROW_LIMIT
        &&& forall|i: int| 0 <= i < self.files@.len() ==> (#[trigger] self.files@[i]).size >= 0
        &&& total_size(tally::views(self.files@)) <= i64::MAX
    }

    /// Whether the survey can be summed up.
    fn is_modest(&self) -> (r: bool)
        ensures
            r == self.modest(),
    {
        let limit: u128 = ROW_LIMIT as u128;
        if self.files.len() as u128 > limit || self.touched.len() as u128 > limit {
            return false;
        }
        let ghost vs = tally::views(self.files@);
        let mut sum: i64 = 0;
        let mut i: usize = 0;
        while i < self.files.len()
            invariant
                i <= self.files@.len(),
                vs == tally::views(self.files@),
                0 <= sum,
                sum == total_size(vs.take(i as int)),
                forall|j: int| 0 <= j < i ==> (#[trigger] self.files@[j]).size >= 0,
            decreases self.files@.len() - i,
        {
            proof {
                assert(vs.take(i + 1).drop_last() =~= vs.take(i as int));
                assert(vs.take(i + 1).last() == self.files@[i as int]@);
            }
            let size: i64 = self.files[i].size;
            if size < 0 {
                return false;
            }
            match sum.checked_add(size) {
                Some(n) => {
                    sum = n;
                },
                None => {
                    proof {
                        if self.modest() {
                            lemma_total_grows(vs, i + 1);
                        }
                    }
                    return false;
                },
            }
            i = i + 1;
        }
        assert(vs.take(self.files@.len() as int) =~= vs);
        true
    }

    /// The counts and sums of the survey fit their types.
    pub open spec fn fits(self) -> bool {
        &&& walk::summable(tally::views(self.files@))
        &&& self.files@.len() <= ROW_LIMIT
        &&& self.touched@.len() <= i64::MAX
    }
}

/// A command with its arguments.
#[derive(Debug)]
pub enum Command {
    /// Register the folder snapshot (run once, or to rescan).
    Init { survey: Survey, wrote_example_config: bool },
    /// Claim and lease the next folder for a task.
    Next {
        task: String,
        agent: Option<String>,
        strategy: Option<Strategy>,
        auto_sweep: bool,
    },
    /// Mark a folder done and append it to the task's visit history.
    Done {
        task: String,
        path: String,
        agent: Option<String>,
        reason: Option<String>,
        found: Option<i64>,
        clean: bool,
    },
    /// Mark a folder skipped (counts as covered, recorded in history).
    Skip {
        task: String,
        path: String,
        agent: Option<String>,
        reason: Option<String>,
        found: Option<i64>,
        clean: bool,
    },
    /// Coverage snapshot for the task's latest sweep.
    Status { task: String },
    /// List work items in the latest sweep.
    List { task: String, state: Option<WorkStatus> },
    /// Open a fresh sweep, on a refreshed folder snapshot if there is a survey.
    SweepNew { task: String, rescan: Option<Survey> },
    /// Show the latest sweep for a task.
    SweepShow { task: String },
    /// Clear a task's sweeps (and its visit history with `all`).
    Reset { task: String, all: bool },
    /// Reclaim expired leases, and rebuild the counters first with `reconcile`.
    Gc { reconcile: bool },
}

/// What a command answers.
#[derive(Debug)]
pub enum Reply {
    Init(InitResult),
    Next(NextResult),
    Complete(CompleteResult),
    Status(StatusReport),
    List(Vec<ListRow>),
    Sweep(SweepInfo),
    Reset(ResetResult),
    Gc(GcResult),
}

/// Exit code of a `next`.
pub open spec fn next_code(v: NextView) -> u8 {
    match v {
        NextView::Claimed { .. } => EXIT_OK,
        NextView::SweepComplete { .. } => EXIT_SWEEP_COMPLETE,
        NextView::NoneAvailable { .. } => EXIT_NONE_AVAILABLE,
    }
}

impl Reply {
    /// The process exit code that goes with the answer.
    pub fn exit_code(&self) -> (r: u8)
        ensures
            r == match *self {
                Reply::Next(n) => next_code(n@),
                _ => EXIT_OK,
            },
            r == match *self {
                Reply::Next(NextResult::SweepComplete { .. }) => 3u8,
                Reply::Next(NextResult::NoneAvailable { .. }) => 4u8,
                _ => 0u8,
            },
    {
        match self {
            Reply::Next(n) => match n {
                NextResult::Claimed { .. } => EXIT_OK,
                NextResult::SweepComplete { .. } => EXIT_SWEEP_COMPLETE,
                NextResult::NoneAvailable { .. } => EXIT_NONE_AVAILABLE,
            },
            _ => EXIT_OK,
        }
    }
}

/// The outcome that an agent reports: a number of findings, or that there were
/// none.
pub open spec fn outcome_of(found: Option<i64>, clean: bool) -> Option<i64> {
    if clean {
        Some(0)
    } else {
        found
    }
}

fn outcome(found: Option<i64>, clean: bool) -> (r: Option<i64>)
    ensures
        r == outcome_of(found, clean),
{
    if clean {
        Some(0)
    } else {
        found
    }
}

/// A borrowed optional text.
fn lent(s: &Option<String>) -> (r: Option<&str>)
    ensures
        model::lent_text(r) == model::owned_text(*s),
{
    match s {
        Some(t) => Some(t.as_str()),
        None => None,
    }
}

/// `t` is `s` with the snapshot that a survey shows; `folders` are its folders.
pub open spec fn registered(
    s: StoreView,
    t: StoreView,
    survey: Survey,
    cfg: Config,
    now: i64,
    folders: Seq<FolderView>,
    excluded: int,
) -> bool {
    &&& walk::is_scan(
        tally::views(survey.files@),
        config::texts(survey.dirs@),
        config::texts(survey.touched@),
        cfg.scan.min_files as i64,
        folders,
        excluded,
    )
    &&& t == s.with_folders(folders, now)
}

/// `sweep new` of a task is not refused.
pub open spec fn may_open(s: StoreView, task: Seq<char>, cfg: Config, now: i64) -> bool {
    !text::is_blank(task) && s.prepared(task, cfg.strategy, None, now).refusal(task) is None
}

/// A sweep can be opened where the command opens one, and what it is handed fits
/// its types.
pub open spec fn feasible(s: StoreView, cmd: Command, cfg: Config, now: i64) -> bool {
    match cmd {
        Command::Init { survey, .. } => survey.fits(),
        Command::Next { task, agent, strategy, auto_sweep } => !text::is_blank(task@) ==> (
        s.prepared(task@, cfg.strategy, strategy, now).opening(
            task@,
            model::owned_text(agent),
            cfg.lease.ttl_secs,
            auto_sweep,
            now,
        ) matches Some(t) ==> t.has_room(task@, now)),
        Command::SweepNew { task, rescan } => {
            &&& rescan matches Some(survey) ==> survey.fits() && s.work.len() + survey.files@.len()
                <= ROW_LIMIT
            &&& may_open(s, task@, cfg, now) ==> s.prepared(
                task@,
                cfg.strategy,
                None,
                now,
            ).has_room(task@, now)
        },
        _ => true,
    }
}

/// What `sweep new` does once the snapshot is refreshed.
pub open spec fn opens_new<F: Fn(ScoreExpr) -> Score>(
    s: StoreView,
    t: StoreView,
    r: Result<Reply, Error>,
    task: Seq<char>,
    cfg: Config,
    now: i64,
    scorer: F,
) -> bool {
    if text::is_blank(task) {
        t == s && (r matches Err(e) && e@ == ErrorView::Config(ConfigIssue::EmptyTask))
    } else {
        let p = s.prepared(task, cfg.strategy, None, now);
        match p.refusal(task) {
            Some(e) => t == p && (r matches Err(x) && x@ == e),
            None => (r matches Ok(Reply::Sweep(v)) && v@ == t.info(task)) && exists|
                scores: Seq<Score>,
            |
                #![trigger p.opened(task, now, scores)]
                state::scored_by(scorer, p.plan(task, cfg.strategy, now), scores) && t == p.opened(
                    task,
                    now,
                    scores,
                ),
        }
    }
}

/// What marking a path covered does.
pub open spec fn completes(
    s: StoreView,
    t: StoreView,
    r: Result<Reply, Error>,
    task: Seq<char>,
    path: Seq<char>,
    agent: Option<Seq<char>>,
    status: WorkStatus,
    reason: Option<Seq<char>>,
    found: Option<i64>,
    now: i64,
) -> bool {
    match s.complete(task, walk::stored_form(path), agent, status, reason, found, now) {
        Ok((u, v)) => t == u && (r matches Ok(Reply::Complete(c)) && c@ == v),
        Err(e) => t == s && (r matches Err(x) && x@ == e),
    }
}

/// A command may take the state from `s` to `t` and be answered with `r`.
pub open spec fn performs<F: Fn(ScoreExpr) -> Score>(
    s: StoreView,
    t: StoreView,
    r: Result<Reply, Error>,
    cmd: Command,
    cfg: Config,
    now: i64,
    scorer: F,
) -> bool {
    match cmd {
        Command::Init { survey, wrote_example_config } => r matches Ok(Reply::Init(v)) && exists|
            folders: Seq<FolderView>,
        | #[trigger]
            registered(s, t, survey, cfg, now, folders, v.excluded as int) && v.folders
                == t.folders.len() && v.wrote_example_config == wrote_example_config,
        Command::Next { task, agent, strategy, auto_sweep } => if text::is_blank(task@) {
            t == s && (r matches Err(e) && e@ == ErrorView::Config(ConfigIssue::EmptyTask))
        } else {
            let p = s.prepared(task@, cfg.strategy, strategy, now);
            let who = model::owned_text(agent);
            let ttl = cfg.lease.ttl_secs;
            if p.stuck(task@, who, ttl, auto_sweep, now) {
                &&& p.opening(task@, who, ttl, auto_sweep, now) == Some(t)
                &&& r matches Err(e) && e@ == ErrorView::Other(state::no_way_on(task@))
            } else {
                r matches Ok(Reply::Next(v)) && state::advances(
                    p,
                    t,
                    v@,
                    task@,
                    cfg.strategy,
                    who,
                    ttl,
                    auto_sweep,
                    now,
                    scorer,
                )
            }
        },
        Command::Done { task, path, agent, reason, found, clean } => completes(
            s,
            t,
            r,
            task@,
            path@,
            model::owned_text(agent),
            WorkStatus::Done,
            model::owned_text(reason),
            outcome_of(found, clean),
            now,
        ),
        Command::Skip { task, path, agent, reason, found, clean } => completes(
            s,
            t,
            r,
            task@,
            path@,
            model::owned_text(agent),
            WorkStatus::Skipped,
            model::owned_text(reason),
            outcome_of(found, clean),
            now,
        ),
        Command::Status { task } => t == s && (r matches Ok(Reply::Status(v)) && v@ == s.status(
            task@,
        )),
        Command::List { task, state } => t == s && (r matches Ok(Reply::List(v))
            && listing::in_order(tally::views(v@)) && tally::views(v@).to_multiset() == s.shown(
            task@,
            state,
        ).to_multiset()),
        Command::SweepNew { task, rescan } => match rescan {
            None => opens_new(s, t, r, task@, cfg, now, scorer),
            Some(survey) => exists|u: StoreView, folders: Seq<FolderView>, excluded: int| #[trigger]
                registered(s, u, survey, cfg, now, folders, excluded) && opens_new(
                    u,
                    t,
                    r,
                    task@,
                    cfg,
                    now,
                    scorer,
                ),
        },
        Command::SweepShow { task } => t == s && (r matches Ok(Reply::Sweep(v)) && v@ == s.info(
            task@,
        )),
        Command::Reset { task, all } => t == s.reset(task@, all) && (r matches Ok(Reply::Reset(v))
            && v@ == s.reset_view(task@, all)),
        Command::Gc { reconcile } => {
            let u = if reconcile {
                s.reconciled()
            } else {
                s
            };
            t == u.swept(now) && (r matches Ok(Reply::Gc(v)) && v.reclaimed_leases == tally::count(
                u.work,
                state::due_anywhere(now),
            ))
        },
    }
}

/// Folders in ascending order are distinct.
pub proof fn lemma_ascending_distinct(folders: Seq<FolderView>)
    requires
        walk::ascending(folders),
    ensures
        forall|j: int| !#[trigger] state::repeats(folders, j),
{
    assert forall|j: int| !#[trigger] state::repeats(folders, j) by {
        if state::repeats(folders, j) {
            let i = choose|i: int| 0 <= i < j && (#[trigger] folders[i]).path == folders[j].path;
            text::lemma_text_order(folders[i].path, folders[j].path, folders[j].path);
            assert(text::text_before(folders[i].path, folders[j].path));
        }
    }
}

/// Registers the snapshot that a survey shows.
fn register(
    store: &mut Store,
    survey: &Survey,
    cfg: &Config,
    now: i64,
    wrote_example_config: bool,
) -> (r: Result<InitResult, Error>)
    requires
        survey.fits(),
    ensures
        old(store)@.keyed() ==> final(store)@.keyed(),
        old(store)@.wf() ==> final(store)@.wf(),
        final(store)@.folders.len() <= survey.files@.len(),
        r matches Ok(v) && v.folders == final(store)@.folders.len() && v.wrote_example_config
            == wrote_example_config && exists|fs: Seq<FolderView>| #[trigger]
            registered(old(store)@, final(store)@, *survey, *cfg, now, fs, v.excluded as int),
{
    let out = walk::scan(&survey.files, &survey.dirs, &survey.touched, cfg);
    let ghost fs = tally::views(out.folders@);
    let ghost was = store@;
    proof {
        lemma_ascending_distinct(fs);
    }
    match store.replace_folders(out.folders.as_slice(), now) {
        Ok(_) => {},
        Err(e) => return Err(e),
    }
    let r = InitResult { folders: out.folders.len(), excluded: out.excluded, wrote_example_config };
    assert(registered(was, store@, *survey, *cfg, now, fs, r.excluded as int));
    Ok(r)
}

/// A refreshed snapshot leaves room for a sweep where there was.
pub proof fn lemma_room_kept(
    s: StoreView,
    folders: Seq<FolderView>,
    task: Seq<char>,
    cfg: Config,
    now: i64,
)
    requires
        s.wf(),
        s.with_folders(folders, now).wf(),
        may_open(s, task, cfg, now) ==> s.prepared(task, cfg.strategy, None, now).has_room(
            task,
            now,
        ),
        s.work.len() + folders.len() <= ROW_LIMIT,
    ensures
        may_open(s.with_folders(folders, now), task, cfg, now) ==> s.with_folders(
            folders,
            now,
        ).prepared(task, cfg.strategy, None, now).has_room(task, now),
{
    let t = s.with_folders(folders, now);
    assert(t.tasks == s.tasks);
    assert(t.task_at(task) == s.task_at(task));
    let p = s.prepared(task, cfg.strategy, None, now);
    let q = t.prepared(task, cfg.strategy, None, now);
    assert(t.newest(task) == s.newest(task));
    assert(q.tasks == p.tasks);
    assert(q.visits == p.visits);
    assert(q.sweeps == p.sweeps);
}

/// A command that only reads.
pub open spec fn reads_only(cmd: Command) -> bool {
    cmd is Status || cmd is List || cmd is SweepShow
}

/// The state is sound enough for a command: reading asks for nothing, a new
/// snapshot and clearing a task for distinct keys and sweeps that can be counted,
/// rebuilding the counters for rows that can be counted, collecting expired leases
/// for counters that can be moved, and all else for a valid state.
pub open spec fn fit(s: StoreView, cmd: Command) -> bool {
    if reads_only(cmd) {
        true
    } else {
        match cmd {
            Command::Init { .. } => s.keyed(),
            Command::Reset { .. } => s.keyed() && s.sweeps.len() <= ROW_LIMIT,
            Command::Gc { reconcile: true } => s.keyed() && s.work.len() <= ROW_LIMIT,
            Command::Gc { reconcile: false } => s.keyed() && s.countable(),
            _ => s.wf(),
        }
    }
}

/// Carries out a command.
pub fn execute<F: Fn(ScoreExpr) -> Score>(
    store: &mut Store,
    cmd: &Command,
    cfg: &Config,
    now: i64,
    scorer: &F,
) -> (r: Result<Reply, Error>)
    requires
        fit(old(store)@, *cmd),
        feasible(old(store)@, *cmd, *cfg, now),
        forall|e: ScoreExpr| call_requires(*scorer, (e,)),
    ensures
        old(store)@.wf() ==> final(store)@.wf(),
        performs(old(store)@, final(store)@, r, *cmd, *cfg, now, *scorer),
{
    match cmd {
        Command::Init { survey, wrote_example_config } => {
            let r = match register(store, survey, cfg, now, *wrote_example_config) {
                Ok(v) => Ok(Reply::Init(v)),
                Err(e) => Err(e),
            };
            let ghost v = r->Ok_0->Init_0;
            assert(exists|folders: Seq<FolderView>| #[trigger]
                registered(old(store)@, store@, *survey, *cfg, now, folders, v.excluded as int));
            assert(performs(old(store)@, store@, r, *cmd, *cfg, now, *scorer));
            r
        },
        Command::Next { task, agent, strategy, auto_sweep } => {
            let r = match store.next(
                task.as_str(),
                cfg,
                lent(agent),
                *strategy,
                *auto_sweep,
                now,
                scorer,
            ) {
                Ok(v) => Ok(Reply::Next(v)),
                Err(e) => Err(e),
            };
            assert(performs(old(store)@, store@, r, *cmd, *cfg, now, *scorer));
            r
        },
        Command::Done { task, path, agent, reason, found, clean } => match store.complete(
            task.as_str(),
            path.as_str(),
            lent(agent),
            WorkStatus::Done,
            lent(reason),
            outcome(*found, *clean),
            now,
        ) {
            Ok(v) => Ok(Reply::Complete(v)),
            Err(e) => Err(e),
        },
        Command::Skip { task, path, agent, reason, found, clean } => match store.complete(
            task.as_str(),
            path.as_str(),
            lent(agent),
            WorkStatus::Skipped,
            lent(reason),
            outcome(*found, *clean),
            now,
        ) {
            Ok(v) => Ok(Reply::Complete(v)),
            Err(e) => Err(e),
        },
        Command::Status { task } => match store.status(task.as_str()) {
            Ok(v) => Ok(Reply::Status(v)),
            Err(e) => Err(e),
        },
        Command::List { task, state } => match store.list(task.as_str(), *state) {
            Ok(v) => Ok(Reply::List(v)),
            Err(e) => Err(e),
        },
        Command::SweepNew { task, rescan } => {
            let r = sweep_new(store, task.as_str(), rescan, cfg, now, scorer);
            assert(performs(old(store)@, store@, r, *cmd, *cfg, now, *scorer));
            r
        },
        Command::SweepShow { task } => match store.sweep_info(task.as_str()) {
            Ok(v) => Ok(Reply::Sweep(v)),
            Err(e) => Err(e),
        },
        Command::Reset { task, all } => match store.reset(task.as_str(), *all) {
            Ok(v) => Ok(Reply::Reset(v)),
            Err(e) => Err(e),
        },
        Command::Gc { reconcile } => {
            if *reconcile {
                match store.reconcile() {
                    Ok(_) => {},
                    Err(e) => return Err(e),
                }
            }
            match store.gc(now) {
                Ok(v) => Ok(Reply::Gc(v)),
                Err(e) => Err(e),
            }
        },
    }
}

/// Sizes that are not negative add up to no less than the first of them do.
proof fn lemma_total_grows(files: Seq<FileView>, n: int)
    requires
        0 <= n <= files.len(),
        forall|i: int| 0 <= i < files.len() ==> (#[trigger] files[i]).size >= 0,
    ensures
        0 <= total_size(files.take(n)) <= total_size(files),
    decreases files.len(),
{
    if files.len() == 0 {
        assert(files.take(n) =~= files);
    } else {
        let t = files.drop_last();
        assert forall|i: int| 0 <= i < t.len() implies (#[trigger] t[i]).size >= 0 by {
            assert(t[i] == files[i]);
        }
        assert(files.last() == files[files.len() - 1]);
        if n < files.len() {
            lemma_total_grows(t, n);
            assert(t.take(n) =~= files.take(n));
        } else {
            lemma_total_grows(t, t.len() as int);
            assert(t.take(t.len() as int) =~= t);
            assert(files.take(n) =~= files);
        }
    }
}

/// The files of one folder are no larger than all of them.
proof fn lemma_folder_within_total(files: Seq<FileView>, folder: Seq<char>)
    requires
        forall|i: int| 0 <= i < files.len() ==> (#[trigger] files[i]).size >= 0,
    ensures
        0 <= walk::size_in(files, folder) <= total_size(files),
    decreases files.len(),
{
    if files.len() > 0 {
        let t = files.drop_last();
        assert forall|i: int| 0 <= i < t.len() implies (#[trigger] t[i]).size >= 0 by {
            assert(t[i] == files[i]);
        }
        lemma_folder_within_total(t, folder);
        assert(files.last() == files[files.len() - 1]);
    }
}

/// A modest survey can be summed up.
proof fn lemma_modest_fits(survey: Survey)
    requires
        survey.modest(),
    ensures
        survey.fits(),
{
    let vs = tally::views(survey.files@);
    assert forall|i: int| 0 <= i < vs.len() implies (#[trigger] vs[i]).size >= 0 by {
        assert(survey.files@[i].size >= 0);
    }
    assert forall|n: int, folder: Seq<char>| 0 <= n <= vs.len() implies i64::MIN
        <= #[trigger] walk::size_in(vs.take(n), folder) <= i64::MAX by {
        lemma_total_grows(vs, n);
        assert forall|i: int| 0 <= i < vs.take(n).len() implies (#[trigger] vs.take(n)[i]).size
            >= 0 by {
            assert(vs.take(n)[i] == vs[i]);
        }
        lemma_folder_within_total(vs.take(n), folder);
    }
}

/// What stands against carrying out a command, if anything does: rows that are
/// not sound enough for it, a survey that cannot be summed up, or a sweep to open
/// that cannot be numbered or counted.
pub open spec fn obstacle(s: StoreView, cmd: Command, cfg: Config, now: i64) -> Option<
    Seq<char>,
> {
    if !fit(s, cmd) {
        Some("the state is damaged"@)
    } else {
        match cmd {
            Command::Init { survey, .. } => if survey.modest() {
                None
            } else {
                Some("the tree is too large"@)
            },
            Command::Next { task, agent, strategy, auto_sweep } => if !text::is_blank(task@) && (
            s.prepared(task@, cfg.strategy, strategy, now).opening(
                task@,
                model::owned_text(agent),
                cfg.lease.ttl_secs,
                auto_sweep,
                now,
            ) matches Some(t) && !t.has_room(task@, now)) {
                Some("there is no room for another sweep"@)
            } else {
                None
            },
            Command::SweepNew { task, rescan } => if rescan matches Some(survey) && !(
            survey.modest() && s.work.len() + survey.files@.len() <= ROW_LIMIT) {
                Some("the tree is too large"@)
            } else if may_open(s, task@, cfg, now) && !s.prepared(
                task@,
                cfg.strategy,
                None,
                now,
            ).has_room(task@, now) {
                Some("there is no room for another sweep"@)
            } else {
                None
            },
            _ => None,
        }
    }
}

/// Registering a task and choosing its strategy changes nothing but the tasks,
/// and not the number of the sweep that the task opens next.
pub proof fn lemma_prepared(
    s: StoreView,
    task: Seq<char>,
    cfg: Config,
    strategy: Option<Strategy>,
    now: i64,
)
    requires
        s.wf(),
    ensures
        ({
            let p = s.prepared(task, cfg.strategy, strategy, now);
            &&& p.wf()
            &&& p.task_at(task) is Some
            &&& p.current(task) == s.current(task)
            &&& p.folders == s.folders
            &&& p.sweeps == s.sweeps
            &&& p.work == s.work
            &&& p.visits == s.visits
        }),
{
    let name = match strategy {
        Some(n) => n,
        None => cfg.strategy.default,
    };
    let e = s.ensured(task, name, cfg.strategy.seed, now);
    validity::lemma_task_at(s, task);
    validity::lemma_ensured(s, task, name, cfg.strategy.seed, now);
    validity::lemma_with_strategy(e, task, name);
    validity::lemma_task_at(e, task);
}

/// Where nothing that counts differs, there is room in both states or in none.
proof fn lemma_same_room(s: StoreView, t: StoreView, task: Seq<char>, now: i64)
    requires
        t.work.len() == s.work.len(),
        t.sweeps.len() == s.sweeps.len(),
        forall|i: int|
            #![trigger s.sweeps[i]]
            #![trigger t.sweeps[i]]
            0 <= i < s.sweeps.len() ==> s.sweeps[i].task == t.sweeps[i].task && s.sweeps[i].sweep
                == t.sweeps[i].sweep,
        t.folders == s.folders,
        t.visits == s.visits,
        t.current(task) == s.current(task),
    ensures
        t.has_room(task, now) == s.has_room(task, now),
{
}

/// Whether a `next` opens a sweep does not depend on the tasks.
proof fn lemma_opening_same(
    s: StoreView,
    p: StoreView,
    task: Seq<char>,
    agent: Option<Seq<char>>,
    ttl: i64,
    auto: bool,
    now: i64,
)
    requires
        s.wf(),
        p.wf(),
        p.sweeps == s.sweeps,
        p.work == s.work,
    ensures
        p.opening(task, agent, ttl, auto, now) is Some <==> s.opening(
            task,
            agent,
            ttl,
            auto,
            now,
        ) is Some,
{
    validity::lemma_latest(s, task);
    if let Some(k) = s.latest(task) {
        let n = s.sweeps[k].sweep;
        assert(p.sweep_at(task, n) == s.sweep_at(task, n));
        laws::lemma_drained_when(s, task, n, agent, ttl, now);
        laws::lemma_drained_when(p, task, n, agent, ttl, now);
    }
}

/// There is room for a sweep now exactly if there is for the one that the
/// command opens, and registering the task makes no difference to whether it
/// opens one.
pub proof fn lemma_room_same(
    s: StoreView,
    task: Seq<char>,
    cfg: Config,
    strategy: Option<Strategy>,
    agent: Option<Seq<char>>,
    ttl: i64,
    auto: bool,
    now: i64,
)
    requires
        s.wf(),
    ensures
        ({
            let p = s.prepared(task, cfg.strategy, strategy, now);
            &&& p.has_room(task, now) == s.has_room(task, now)
            &&& p.refusal(task) is None <==> s.active(task) is None
            &&& p.opening(task, agent, ttl, auto, now) is Some <==> s.opening(
                task,
                agent,
                ttl,
                auto,
                now,
            ) is Some
            &&& p.opening(task, agent, ttl, auto, now) matches Some(t) ==> t.has_room(task, now)
                == s.has_room(task, now)
        }),
{
    let p = s.prepared(task, cfg.strategy, strategy, now);
    lemma_prepared(s, task, cfg, strategy, now);
    lemma_same_room(s, p, task, now);
    lemma_opening_same(s, p, task, agent, ttl, auto, now);
    laws::lemma_opening(p, task, agent, ttl, auto, now);
    if let Some(t) = p.opening(task, agent, ttl, auto, now) {
        lemma_same_room(p, t, task, now);
    }
}

/// Carries out a command on rows that were read from elsewhere, if nothing
/// stands against it.
pub fn run<F: Fn(ScoreExpr) -> Score>(
    store: &mut Store,
    cmd: &Command,
    cfg: &Config,
    now: i64,
    scorer: &F,
) -> (r: Result<Reply, Error>)
    requires
        old(store)@.keyed(),
        forall|e: ScoreExpr| call_requires(*scorer, (e,)),
    ensures
        old(store)@.wf() ==> final(store)@.wf(),
        match obstacle(old(store)@, *cmd, *cfg, now) {
            Some(m) => final(store)@ == old(store)@ && (r matches Err(e) && e@ == ErrorView::Other(
                m,
            )),
            None => performs(old(store)@, final(store)@, r, *cmd, *cfg, now, *scorer),
        },
{
    let sound = match cmd {
        Command::Status { .. } | Command::List { .. } | Command::SweepShow { .. } => true,
        Command::Init { .. } => true,
        Command::Reset { .. } => store.sweeps.len() as u128 <= ROW_LIMIT as u128,
        Command::Gc { reconcile } => if *reconcile {
            store.work.len() as u128 <= ROW_LIMIT as u128
        } else {
            store.is_countable()
        },
        _ => store.is_sound(),
    };
    if !sound {
        return Err(Error::Other("the state is damaged".to_owned()));
    }
    match cmd {
        Command::Init { survey, .. } => {
            if !survey.is_modest() {
                return Err(Error::Other("the tree is too large".to_owned()));
            }
            proof {
                lemma_modest_fits(*survey);
            }
        },
        Command::Next { task, agent, strategy, auto_sweep } => {
            proof {
                lemma_room_same(
                    store@,
                    task@,
                    *cfg,
                    *strategy,
                    model::owned_text(*agent),
                    cfg.lease.ttl_secs,
                    *auto_sweep,
                    now,
                );
            }
            if !text::blank(task.as_str()) && store.would_open(task.as_str(), *auto_sweep, now)
                && !store.can_open(task.as_str(), now) {
                return Err(Error::Other("there is no room for another sweep".to_owned()));
            }
        },
        Command::SweepNew { task, rescan } => {
            match rescan {
                Some(survey) => {
                    if !survey.is_modest() || store.work.len() as u128 + survey.files.len() as u128
                        > ROW_LIMIT as u128 {
                        return Err(Error::Other("the tree is too large".to_owned()));
                    }
                    proof {
                        lemma_modest_fits(*survey);
                    }
                },
                None => {},
            }
            proof {
                lemma_room_same(store@, task@, *cfg, None, None, 0, false, now);
            }
            if !text::blank(task.as_str()) && !store.has_active_sweep(task.as_str())
                && !store.can_open(task.as_str(), now) {
                return Err(Error::Other("there is no room for another sweep".to_owned()));
            }
        },
        _ => {},
    }
    execute(store, cmd, cfg, now, scorer)
}

/// `sweep new`, on a refreshed snapshot if there is a survey.
fn sweep_new<F: Fn(ScoreExpr) -> Score>(
    store: &mut Store,
    task: &str,
    rescan: &Option<Survey>,
    cfg: &Config,
    now: i64,
    scorer: &F,
) -> (r: Result<Reply, Error>)
    requires
        old(store)@.wf(),
        rescan matches Some(survey) ==> survey.fits() && old(store)@.work.len()
            + survey.files@.len() <= ROW_LIMIT,
        may_open(old(store)@, task@, *cfg, now) ==> old(store)@.prepared(
            task@,
            cfg.strategy,
            None,
            now,
        ).has_room(task@, now),
        forall|e: ScoreExpr| call_requires(*scorer, (e,)),
    ensures
        final(store)@.wf(),
        match *rescan {
            None => opens_new(old(store)@, final(store)@, r, task@, *cfg, now, *scorer),
            Some(survey) => exists|u: StoreView, folders: Seq<FolderView>, excluded: int| #[trigger]
                registered(old(store)@, u, survey, *cfg, now, folders, excluded) && opens_new(
                    u,
                    final(store)@,
                    r,
                    task@,
                    *cfg,
                    now,
                    *scorer,
                ),
        },
{
    let ghost was = store@;
    match rescan {
        Some(survey) => {
            let found = match register(store, survey, cfg, now, false) {
                Ok(v) => v,
                Err(e) => return Err(e),
            };
            proof {
                let fs = choose|fs: Seq<FolderView>| #[trigger]
                    registered(was, store@, *survey, *cfg, now, fs, found.excluded as int);
                assert(store@.folders.len() == fs.len());
                if !text::is_blank(task@) {
                    lemma_room_kept(was, fs, task@, *cfg, now);
                }
            }
        },
        None => {},
    }
    match store.open_new_sweep(task, cfg, now, scorer) {
        Ok(v) => Ok(Reply::Sweep(v)),
        Err(e) => Err(e),
    }
}

}
