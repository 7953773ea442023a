//! What `init` registers and what `sweep new` opens, said of the rows themselves.

use vstd::prelude::*;
use crate::answers::{is_newest, lemma_newest, sweep_word};
use crate::command;
use crate::command::{Command, Reply, Survey};
use crate::config;
use crate::config::Config;
use crate::error::{ConfigIssue, Error, ErrorView};
use crate::handing;
use crate::handing::{begins, has_active, registers};
use crate::model::{FolderStat, FolderView, Score, SweepInfo, SweepStatus};
use crate::rows::FolderRowView;
use crate::scheduler::ScoreExpr;
use crate::state;
use crate::state::StoreView;
use crate::tally;
use crate::text;
use crate::validity;
use crate::walk;

verus! {

/// A snapshot that is registered is, place by place, what was given, in all of its
/// signals and with the time; all else stays.
pub proof fn law_a_snapshot_is_registered_as_given(
    s: StoreView,
    folders: Seq<FolderStat>,
    now: i64,
)
    ensures
        ({
            let t = s.with_folders(tally::views(folders), now);
            &&& t.folders.len() == folders.len()
            &&& forall|i: int|
                #![trigger t.folders[i]]
                #![trigger folders[i]]
                0 <= i < folders.len() ==> {
                    &&& t.folders[i].stat.path == folders[i].path@
                    &&& t.folders[i].stat.file_count == folders[i].file_count
                    &&& t.folders[i].stat.size_bytes == folders[i].size_bytes
                    &&& t.folders[i].stat.churn == folders[i].churn
                    &&& t.folders[i].scanned_at == now
                }
            &&& t.tasks == s.tasks
            &&& t.sweeps == s.sweeps
            &&& t.work == s.work
            &&& t.visits == s.visits
        }),
{
    let t = s.with_folders(tally::views(folders), now);
    assert forall|i: int|
        #![trigger t.folders[i]]
        #![trigger folders[i]]
        0 <= i < folders.len() implies {
        &&& t.folders[i].stat.path == folders[i].path@
        &&& t.folders[i].stat.file_count == folders[i].file_count
        &&& t.folders[i].stat.size_bytes == folders[i].size_bytes
        &&& t.folders[i].stat.churn == folders[i].churn
        &&& t.folders[i].scanned_at == now
    } by {
        assert(t.folders[i].stat == folders[i]@);
    }
}

/// A snapshot is refused exactly if it names a folder twice, and then for the first
/// that was named before.
pub proof fn law_a_folder_is_named_once(folders: Seq<FolderView>)
    ensures
        match state::first_repeat(folders) {
            Some(j) => {
                &&& 0 <= j < folders.len()
                &&& exists|i: int| 0 <= i < j && (#[trigger] folders[i]).path == folders[j].path
                &&& forall|a: int, b: int|
                    #![trigger folders[a], folders[b]]
                    0 <= a < b < j ==> folders[a].path != folders[b].path
            },
            None => forall|a: int, b: int|
                #![trigger folders[a], folders[b]]
                0 <= a < b < folders.len() ==> folders[a].path != folders[b].path,
        },
{
    match state::first_repeat(folders) {
        Some(j) => {
            assert(state::is_first_repeat(folders, j));
            assert forall|a: int, b: int|
                #![trigger folders[a], folders[b]]
                0 <= a < b < j implies folders[a].path != folders[b].path by {
                assert(!state::repeats(folders, b));
            }
        },
        None => {
            assert forall|a: int, b: int|
                #![trigger folders[a], folders[b]]
                0 <= a < b < folders.len() implies folders[a].path != folders[b].path by {
                if folders[a].path == folders[b].path {
                    lemma_some_repeat(folders, b);
                }
            }
        },
    }
}

/// Where some folder was named before there is a first one.
proof fn lemma_some_repeat(folders: Seq<FolderView>, j: int)
    requires
        state::repeats(folders, j),
    ensures
        exists|m: int| state::is_first_repeat(folders, m),
    decreases j,
{
    if exists|m: int| m < j && state::repeats(folders, m) {
        let m = choose|m: int| m < j && state::repeats(folders, m);
        lemma_some_repeat(folders, m);
    } else {
        assert(state::is_first_repeat(folders, j));
    }
}

/// `folders` are what a survey shows: every folder that holds a file and at least
/// `min` of them, once and by path, as it was measured, at this time.
pub open spec fn is_snapshot(
    folders: Seq<FolderRowView>,
    survey: Survey,
    min: i64,
    now: i64,
) -> bool {
    let files = tally::views(survey.files@);
    let touched = config::texts(survey.touched@);
    &&& forall|i: int, j: int|
        #![trigger folders[i], folders[j]]
        0 <= i < j < folders.len() ==> text::text_before(folders[i].stat.path, folders[j].stat.path)
    &&& forall|i: int|
        0 <= i < folders.len() ==> {
            &&& walk::is_measured(files, touched, (#[trigger] folders[i]).stat)
            &&& folders[i].stat.file_count >= 1
            &&& folders[i].stat.file_count >= min
            &&& folders[i].scanned_at == now
        }
    &&& forall|path: Seq<char>|
        1 <= (#[trigger] walk::files_of(files, path)).len() && min <= walk::files_of(
            files,
            path,
        ).len() ==> exists|i: int|
            0 <= i < folders.len() && (#[trigger] folders[i]).stat.path == path
}

/// `t` is `s` with the snapshot that a survey shows.
pub open spec fn resnaps(s: StoreView, t: StoreView, survey: Survey, cfg: Config, now: i64) -> bool {
    &&& is_snapshot(t.folders, survey, cfg.scan.min_files as i64, now)
    &&& t.tasks == s.tasks
    &&& t.sweeps == s.sweeps
    &&& t.work == s.work
    &&& t.visits == s.visits
}

proof fn lemma_resnaps(
    s: StoreView,
    t: StoreView,
    survey: Survey,
    cfg: Config,
    now: i64,
    folders: Seq<FolderView>,
    excluded: int,
)
    requires
        command::registered(s, t, survey, cfg, now, folders, excluded),
        survey.fits(),
    ensures
        resnaps(s, t, survey, cfg, now),
        excluded >= 0,
        cfg.scan.min_files as i64 >= 1 ==> t.folders.len() + excluded == walk::all_places(
            tally::views(survey.files@),
            config::texts(survey.dirs@),
        ).len(),
        cfg.scan.min_files as i64 <= 0 ==> excluded == 0,
{
    let files = tally::views(survey.files@);
    let touched = config::texts(survey.touched@);
    let min = cfg.scan.min_files as i64;
    walk::law_a_scan_measures_every_folder(
        files,
        config::texts(survey.dirs@),
        touched,
        min,
        folders,
        excluded,
    );
    assert forall|i: int| 0 <= i < t.folders.len() implies {
        &&& walk::is_measured(files, touched, (#[trigger] t.folders[i]).stat)
        &&& t.folders[i].stat.file_count >= 1
        &&& t.folders[i].stat.file_count >= min
        &&& t.folders[i].scanned_at == now
    } by {
        assert(t.folders[i].stat == folders[i]);
    }
    assert forall|i: int, j: int|
        #![trigger t.folders[i], t.folders[j]]
        0 <= i < j < t.folders.len() implies text::text_before(
        t.folders[i].stat.path,
        t.folders[j].stat.path,
    ) by {
        assert(t.folders[i].stat == folders[i] && t.folders[j].stat == folders[j]);
    }
    assert forall|path: Seq<char>|
        1 <= (#[trigger] walk::files_of(files, path)).len() && min <= walk::files_of(
            files,
            path,
        ).len() implies exists|i: int|
        0 <= i < t.folders.len() && (#[trigger] t.folders[i]).stat.path == path by {
        let i = choose|i: int| 0 <= i < folders.len() && (#[trigger] folders[i]).path == path;
        assert(t.folders[i].stat == folders[i]);
    }
}

/// `init` registers the snapshot that the survey shows and changes nothing else. It
/// answers with how many folders that has, with how many it met and left out, and
/// with what it was told of the example configuration.
pub proof fn law_init_registers_what_the_survey_shows<F: Fn(ScoreExpr) -> Score>(
    s: StoreView,
    t: StoreView,
    r: Result<Reply, Error>,
    survey: Survey,
    wrote_example_config: bool,
    cfg: Config,
    now: i64,
    scorer: F,
)
    requires
        survey.fits(),
        command::performs(
            s,
            t,
            r,
            Command::Init { survey, wrote_example_config },
            cfg,
            now,
            scorer,
        ),
    ensures
        resnaps(s, t, survey, cfg, now),
        r matches Ok(Reply::Init(v)) && {
            &&& v.folders == t.folders.len()
            &&& v.wrote_example_config == wrote_example_config
            &&& cfg.scan.min_files as i64 >= 1 ==> v.folders + v.excluded == walk::all_places(
                tally::views(survey.files@),
                config::texts(survey.dirs@),
            ).len()
            &&& cfg.scan.min_files as i64 <= 0 ==> v.excluded == 0
        },
{
    let v = r->Ok_0->Init_0;
    let folders = choose|folders: Seq<FolderView>| #[trigger]
        command::registered(s, t, survey, cfg, now, folders, v.excluded as int);
    lemma_resnaps(s, t, survey, cfg, now, folders, v.excluded as int);
}

/// The answer reports the task's newest sweep.
pub open spec fn reports_newest(t: StoreView, task: Seq<char>, v: SweepInfo) -> bool {
    &&& v.task@ == task
    &&& exists|k: int| #[trigger]
        is_newest(t, task, k) && {
            &&& v.sweep == t.sweeps[k].sweep
            &&& v.sweep_status@ == sweep_word(t.sweeps[k].status)
            &&& v.total == t.sweeps[k].total
            &&& v.started_at == Some(t.sweeps[k].started_at)
            &&& v.completed_at == t.sweeps[k].completed_at
        }
}

/// `m` says that the sweep in place `k`, the newest active one of the task, is still
/// active.
pub open spec fn says_active(s: StoreView, task: Seq<char>, k: int, m: Seq<char>) -> bool {
    &&& 0 <= k < s.sweeps.len()
    &&& s.sweeps[k].task == task
    &&& s.sweeps[k].status == SweepStatus::Active
    &&& forall|j: int|
        0 <= j < s.sweeps.len() && (#[trigger] s.sweeps[j]).task == task && s.sweeps[j].status
            == SweepStatus::Active ==> s.sweeps[j].sweep <= s.sweeps[k].sweep
    &&& m == "sweep "@ + text::decimal_text(s.sweeps[k].sweep as int) + " for task "@
        + text::quoted_text(task)
        + " is still active; finish or reset it before opening a new sweep"@
}

/// What `sweep new` does once the snapshot is refreshed: a task without a name is
/// refused; the task is registered; while one of its sweeps is active no other is
/// begun, and that is said; else one is begun and reported.
pub open spec fn starts<F: Fn(ScoreExpr) -> Score>(
    s: StoreView,
    t: StoreView,
    r: Result<Reply, Error>,
    task: Seq<char>,
    cfg: Config,
    now: i64,
    scorer: F,
) -> bool {
    if text::is_blank(task) {
        t == s && (r matches Err(Error::Config(ConfigIssue::EmptyTask)))
    } else {
        exists|p: StoreView| #[trigger]
            registers(s, p, task, cfg.strategy, None, now) && if has_active(p, task) {
                t == p && (r matches Err(Error::SweepActive(m)) && exists|k: int| #[trigger]
                    says_active(p, task, k, m@))
            } else {
                (exists|k: int| #[trigger] begins(p, t, task, k, cfg.strategy, now, scorer)) && (
                r matches Ok(Reply::Sweep(v)) && reports_newest(t, task, v))
            }
    }
}

proof fn lemma_starts<F: Fn(ScoreExpr) -> Score>(
    s: StoreView,
    t: StoreView,
    r: Result<Reply, Error>,
    task: Seq<char>,
    cfg: Config,
    now: i64,
    scorer: F,
)
    requires
        s.wf(),
        command::opens_new(s, t, r, task, cfg, now, scorer),
        command::may_open(s, task, cfg, now) ==> s.prepared(task, cfg.strategy, None, now).has_room(
            task,
            now,
        ),
    ensures
        starts(s, t, r, task, cfg, now, scorer),
{
    if text::is_blank(task) {
        assert(r->Err_0@ == ErrorView::Config(ConfigIssue::EmptyTask));
    } else {
        let p = s.prepared(task, cfg.strategy, None, now);
        handing::law_a_task_is_registered_as_asked(s, task, cfg.strategy, None, now);
        command::lemma_prepared(s, task, cfg, None, now);
        handing::lemma_has_active(p, task);
        let rank = state::by_newest_active(task);
        tally::lemma_top(p.sweeps, rank);
        if let Some(k) = p.active(task) {
            assert(rank(p.sweeps[k]) is Some);
            assert forall|j: int|
                0 <= j < p.sweeps.len() && (#[trigger] p.sweeps[j]).task == task
                    && p.sweeps[j].status == SweepStatus::Active implies p.sweeps[j].sweep
                <= p.sweeps[k].sweep by {
                assert(rank(p.sweeps[j]) is Some);
            }
            assert(r->Err_0@ == ErrorView::SweepActive(
                state::still_active(task, p.sweeps[k].sweep),
            ));
            assert(r->Err_0 is SweepActive);
            assert(says_active(p, task, k, r->Err_0->SweepActive_0@));
        } else {
            let scores = choose|scores: Seq<Score>|
                #![trigger p.opened(task, now, scores)]
                state::scored_by(scorer, p.plan(task, cfg.strategy, now), scores) && t == p.opened(
                    task,
                    now,
                    scores,
                );
            handing::law_an_opened_sweep_begins_on_the_snapshot(
                p,
                task,
                cfg.strategy,
                now,
                scores,
                scorer,
            );
            validity::lemma_opened(p, task, now, scores);
            lemma_newest(t, task);
            assert(t.sweeps[p.sweeps.len() as int].task == task);
            let v = r->Ok_0->Sweep_0;
            let k = t.latest(task)->0;
            assert(v@ == t.info(task));
            assert(v@.sweep == t.sweeps[k].sweep && v@.task == task);
            assert(is_newest(t, task, k));
            assert(reports_newest(t, task, v));
        }
    }
}

/// `sweep new` opens the task's next sweep, on the snapshot that the survey shows if
/// there is one.
pub proof fn law_sweep_new_begins_the_next_sweep<F: Fn(ScoreExpr) -> Score>(
    s: StoreView,
    t: StoreView,
    r: Result<Reply, Error>,
    task: String,
    rescan: Option<Survey>,
    cfg: Config,
    now: i64,
    scorer: F,
)
    requires
        s.wf(),
        command::feasible(s, Command::SweepNew { task, rescan }, cfg, now),
        command::performs(s, t, r, Command::SweepNew { task, rescan }, cfg, now, scorer),
    ensures
        rescan is None ==> starts(s, t, r, task@, cfg, now, scorer),
        rescan matches Some(survey) ==> exists|u: StoreView| #[trigger]
            resnaps(s, u, survey, cfg, now) && starts(u, t, r, task@, cfg, now, scorer),
{
    match rescan {
        None => {
            lemma_starts(s, t, r, task@, cfg, now, scorer);
        },
        Some(survey) => {
            let (u, folders, excluded) = choose|
                u: StoreView,
                folders: Seq<FolderView>,
                excluded: int,
            | #[trigger]
                command::registered(s, u, survey, cfg, now, folders, excluded)
                    && command::opens_new(u, t, r, task@, cfg, now, scorer);
            lemma_resnaps(s, u, survey, cfg, now, folders, excluded);
            crate::history::lemma_scan_distinct(survey, cfg, folders, excluded);
            validity::lemma_with_folders(s, folders, now);
            command::lemma_room_kept(s, folders, task@, cfg, now);
            lemma_starts(u, t, r, task@, cfg, now, scorer);
        },
    }
}

}
