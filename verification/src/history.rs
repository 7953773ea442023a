//! Runs of commands: what holds of every state that they lead to, and what stays
//! as it is through all of them.

use vstd::prelude::*;
use crate::agents;
use crate::command;
use crate::command::{Command, Reply, Survey};
use crate::config;
use crate::config::Config;
use crate::coverage;
use crate::error::Error;
use crate::laws;
use crate::memory;
use crate::model;
use crate::model::{FolderView, Score, Strategy, SweepStatus, WorkStatus};
use crate::scheduler::ScoreExpr;
use crate::state;
use crate::state::StoreView;
use crate::tally;
use crate::text;
use crate::validity;
use crate::walk;

verus! {

// --- validity and truth --------------------------------------------------------------------

/// The state of a new store: nothing is in it.
pub open spec fn nothing() -> StoreView {
    StoreView {
        folders: Seq::empty(),
        tasks: Seq::empty(),
        sweeps: Seq::empty(),
        work: Seq::empty(),
        visits: Seq::empty(),
    }
}

/// A new store is valid and truthful.
pub proof fn law_a_new_store_is_truthful()
    ensures
        nothing().wf(),
        coverage::truthful(nothing()),
{
    reveal(StoreView::single);
}

/// No command, whatever it answers, makes a valid and truthful state anything
/// else.
pub proof fn law_every_command_keeps_the_truth<F: Fn(ScoreExpr) -> Score>(
    s: StoreView,
    t: StoreView,
    r: Result<Reply, Error>,
    cmd: Command,
    cfg: Config,
    now: i64,
    scorer: F,
)
    requires
        s.wf(),
        coverage::truthful(s),
        command::feasible(s, cmd, cfg, now),
        command::performs(s, t, r, cmd, cfg, now, scorer),
    ensures
        t.wf(),
        coverage::truthful(t),
{
    lemma_command_keeps_valid(s, t, r, cmd, cfg, now, scorer);
    match cmd {
        Command::Init { survey, .. } => {
            let v = r->Ok_0->Init_0;
            let folders = choose|folders: Seq<FolderView>| #[trigger]
                command::registered(s, t, survey, cfg, now, folders, v.excluded as int);
            lemma_same_numbers(s, t);
            lemma_same_boards(s, t);
        },
        Command::Next { task, agent, strategy, auto_sweep } => {
            if !text::is_blank(task@) {
                let p = s.prepared(task@, cfg.strategy, strategy, now);
                let who = model::owned_text(agent);
                let ttl = cfg.lease.ttl_secs;
                lemma_prepared_truthful(s, task@, cfg, strategy, now);
                laws::lemma_opening(p, task@, who, ttl, auto_sweep, now);
                let v = r->Ok_0->Next_0@;
                let scores = choose|scores: Seq<Score>| #[trigger]
                    p.next_step(task@, who, ttl, auto_sweep, now, scores) == (t, v);
                coverage::law_next_tells_the_truth(p, task@, who, ttl, auto_sweep, now, scores);
            }
        },
        Command::Done { task, path, agent, reason, found, clean } => {
            coverage::law_complete_tells_the_truth(
                s,
                task@,
                walk::stored_form(path@),
                model::owned_text(agent),
                WorkStatus::Done,
                model::owned_text(reason),
                command::outcome_of(found, clean),
                now,
            );
        },
        Command::Skip { task, path, agent, reason, found, clean } => {
            coverage::law_complete_tells_the_truth(
                s,
                task@,
                walk::stored_form(path@),
                model::owned_text(agent),
                WorkStatus::Skipped,
                model::owned_text(reason),
                command::outcome_of(found, clean),
                now,
            );
        },
        Command::SweepNew { task, rescan } => match rescan {
            None => {
                lemma_opens_truthful(s, t, r, task@, cfg, now, scorer);
            },
            Some(survey) => {
                let (u, folders, excluded) = choose|
                    u: StoreView,
                    folders: Seq<FolderView>,
                    excluded: int,
                | #[trigger]
                    command::registered(s, u, survey, cfg, now, folders, excluded) && command::opens_new(
                        u,
                        t,
                        r,
                        task@,
                        cfg,
                        now,
                        scorer,
                    );
                lemma_same_numbers(s, u);
                lemma_same_boards(s, u);
                lemma_scan_distinct(survey, cfg, folders, excluded);
                validity::lemma_with_folders(s, folders, now);
                if !text::is_blank(task@) {
                    command::lemma_room_kept(s, folders, task@, cfg, now);
                }
                lemma_opens_truthful(u, t, r, task@, cfg, now, scorer);
            },
        },
        Command::Reset { task, all } => {
            coverage::law_control_keeps_the_truth(s, task@, all, now);
        },
        Command::Gc { reconcile } => {
            laws::law_reconcile_repairs(s);
            coverage::law_control_keeps_the_truth(s, Seq::empty(), false, now);
        },
        Command::Status { .. } => {},
        Command::List { .. } => {},
        Command::SweepShow { .. } => {},
    }
}

/// States with the same sweeps and boards are truthful together.
proof fn lemma_same_boards(s: StoreView, t: StoreView)
    requires
        coverage::truthful(s),
        t.sweeps == s.sweeps,
        t.work == s.work,
        coverage::numbered(t),
    ensures
        coverage::truthful(t),
{
    validity::lemma_drift_of_board(s, t);
    laws::lemma_consistent(s, t);
}

/// States with the same tasks and sweeps are numbered together.
proof fn lemma_same_numbers(s: StoreView, t: StoreView)
    requires
        coverage::numbered(s),
        t.sweeps == s.sweeps,
        t.tasks == s.tasks,
    ensures
        coverage::numbered(t),
{
    reveal(StoreView::single);
    assert forall|i: int| 0 <= i < t.sweeps.len() implies t.owned(#[trigger] t.sweeps[i]) by {
        assert(s.owned(s.sweeps[i]));
    }
    assert forall|k: int| 0 <= k < t.tasks.len() implies (#[trigger] t.tasks[k]).current_sweep
        == t.newest(t.tasks[k].name) by {
        assert(s.tasks[k].current_sweep == s.newest(s.tasks[k].name));
    }
}

/// Registering a task and choosing its strategy keeps the state truthful.
proof fn lemma_prepared_truthful(
    s: StoreView,
    task: Seq<char>,
    cfg: Config,
    strategy: Option<Strategy>,
    now: i64,
)
    requires
        s.wf(),
        coverage::truthful(s),
    ensures
        s.prepared(task, cfg.strategy, strategy, now).wf(),
        s.prepared(task, cfg.strategy, strategy, now).task_at(task) is Some,
        coverage::truthful(s.prepared(task, cfg.strategy, strategy, now)),
{
    let p = s.prepared(task, cfg.strategy, strategy, now);
    let name = match strategy {
        Some(n) => n,
        None => cfg.strategy.default,
    };
    let e = s.ensured(task, name, cfg.strategy.seed, now);
    memory::law_a_chosen_strategy_sticks(s, task, cfg.strategy, strategy, now);
    validity::lemma_ensured(s, task, name, cfg.strategy.seed, now);
    validity::lemma_with_strategy(e, task, name);
    if strategy is Some {
        validity::lemma_order_kept(e, p);
    }
    assert forall|k: int| 0 <= k < p.tasks.len() implies (#[trigger] p.tasks[k]).current_sweep
        == p.newest(p.tasks[k].name) by {
        if k < s.tasks.len() {
            assert(s.tasks[k].current_sweep == s.newest(s.tasks[k].name));
        }
    }
    lemma_same_boards(s, p);
}

/// `sweep new` keeps the state truthful.
proof fn lemma_opens_truthful<F: Fn(ScoreExpr) -> Score>(
    s: StoreView,
    t: StoreView,
    r: Result<Reply, Error>,
    task: Seq<char>,
    cfg: Config,
    now: i64,
    scorer: F,
)
    requires
        s.wf(),
        coverage::truthful(s),
        command::opens_new(s, t, r, task, cfg, now, scorer),
        command::may_open(s, task, cfg, now) ==> s.prepared(task, cfg.strategy, None, now).has_room(
            task,
            now,
        ),
    ensures
        coverage::truthful(t),
{
    if !text::is_blank(task) {
        let p = s.prepared(task, cfg.strategy, None, now);
        lemma_prepared_truthful(s, task, cfg, None, now);
        if p.refusal(task) is None {
            let scores = choose|scores: Seq<Score>|
                #![trigger p.opened(task, now, scores)]
                state::scored_by(scorer, p.plan(task, cfg.strategy, now), scores) && t == p.opened(
                    task,
                    now,
                    scores,
                );
            coverage::lemma_opened_truthful(p, task, now, scores);
        }
    }
}

/// The folders of a scan are distinct, and no more than its files.
pub proof fn lemma_scan_distinct(
    survey: Survey,
    cfg: Config,
    folders: Seq<FolderView>,
    excluded: int,
)
    requires
        walk::is_scan(
            tally::views(survey.files@),
            config::texts(survey.dirs@),
            config::texts(survey.touched@),
            cfg.scan.min_files as i64,
            folders,
            excluded,
        ),
    ensures
        forall|j: int| !#[trigger] state::repeats(folders, j),
        folders.len() <= survey.files@.len(),
{
    walk::lemma_scan_ascending(
        tally::views(survey.files@),
        config::texts(survey.dirs@),
        config::texts(survey.touched@),
        cfg.scan.min_files as i64,
        folders,
        excluded,
    );
    command::lemma_ascending_distinct(folders);
}

/// A command keeps a valid state valid.
proof fn lemma_command_keeps_valid<F: Fn(ScoreExpr) -> Score>(
    s: StoreView,
    t: StoreView,
    r: Result<Reply, Error>,
    cmd: Command,
    cfg: Config,
    now: i64,
    scorer: F,
)
    requires
        s.wf(),
        command::feasible(s, cmd, cfg, now),
        command::performs(s, t, r, cmd, cfg, now, scorer),
    ensures
        t.wf(),
{
    match cmd {
        Command::Init { survey, .. } => {
            let v = r->Ok_0->Init_0;
            let folders = choose|folders: Seq<FolderView>| #[trigger]
                command::registered(s, t, survey, cfg, now, folders, v.excluded as int);
            lemma_scan_distinct(survey, cfg, folders, v.excluded as int);
            validity::lemma_with_folders(s, folders, now);
        },
        Command::Next { task, agent, strategy, auto_sweep } => {
            if !text::is_blank(task@) {
                let p = s.prepared(task@, cfg.strategy, strategy, now);
                let who = model::owned_text(agent);
                let ttl = cfg.lease.ttl_secs;
                command::lemma_prepared(s, task@, cfg, strategy, now);
                laws::lemma_opening(p, task@, who, ttl, auto_sweep, now);
                if !p.stuck(task@, who, ttl, auto_sweep, now) {
                    let v = r->Ok_0->Next_0@;
                    let scores = choose|scores: Seq<Score>| #[trigger]
                        p.next_step(task@, who, ttl, auto_sweep, now, scores) == (t, v);
                    laws::law_next_keeps_counters_right(
                        p,
                        task@,
                        who,
                        ttl,
                        auto_sweep,
                        now,
                        scores,
                    );
                }
            }
        },
        Command::Done { task, path, agent, reason, found, clean } => {
            laws::law_complete_keeps_counters_right(
                s,
                task@,
                walk::stored_form(path@),
                model::owned_text(agent),
                WorkStatus::Done,
                model::owned_text(reason),
                command::outcome_of(found, clean),
                now,
            );
        },
        Command::Skip { task, path, agent, reason, found, clean } => {
            laws::law_complete_keeps_counters_right(
                s,
                task@,
                walk::stored_form(path@),
                model::owned_text(agent),
                WorkStatus::Skipped,
                model::owned_text(reason),
                command::outcome_of(found, clean),
                now,
            );
        },
        Command::SweepNew { task, rescan } => match rescan {
            None => {
                lemma_opens_valid(s, t, r, task@, cfg, now, scorer);
            },
            Some(survey) => {
                let (u, folders, excluded) = choose|
                    u: StoreView,
                    folders: Seq<FolderView>,
                    excluded: int,
                | #[trigger]
                    command::registered(s, u, survey, cfg, now, folders, excluded)
                        && command::opens_new(u, t, r, task@, cfg, now, scorer);
                lemma_scan_distinct(survey, cfg, folders, excluded);
                validity::lemma_with_folders(s, folders, now);
                command::lemma_room_kept(s, folders, task@, cfg, now);
                lemma_opens_valid(u, t, r, task@, cfg, now, scorer);
            },
        },
        Command::Reset { task, all } => {
            validity::lemma_reset(s, task@, all);
        },
        Command::Gc { reconcile } => {
            validity::lemma_reconciled(s);
            if reconcile {
                validity::lemma_swept(s.reconciled(), now);
            } else {
                validity::lemma_swept(s, now);
            }
        },
        Command::Status { .. } => {},
        Command::List { .. } => {},
        Command::SweepShow { .. } => {},
    }
}

/// `sweep new` keeps a valid state valid.
proof fn lemma_opens_valid<F: Fn(ScoreExpr) -> Score>(
    s: StoreView,
    t: StoreView,
    r: Result<Reply, Error>,
    task: Seq<char>,
    cfg: Config,
    now: i64,
    scorer: F,
)
    requires
        s.wf(),
        command::opens_new(s, t, r, task, cfg, now, scorer),
        command::may_open(s, task, cfg, now) ==> s.prepared(
            task,
            cfg.strategy,
            None,
            now,
        ).has_room(task, now),
    ensures
        t.wf(),
{
    if !text::is_blank(task) {
        let p = s.prepared(task, cfg.strategy, None, now);
        command::lemma_prepared(s, task, cfg, None, now);
        if p.refusal(task) is None {
            let scores = choose|scores: Seq<Score>|
                #![trigger p.opened(task, now, scores)]
                state::scored_by(scorer, p.plan(task, cfg.strategy, now), scores) && t == p.opened(
                    task,
                    now,
                    scores,
                );
            validity::lemma_opened(p, task, now, scores);
        }
    }
}

/// A command with what it is carried out under and what it is answered.
pub struct Step {
    pub cmd: Command,
    pub cfg: Config,
    pub now: i64,
    pub reply: Result<Reply, Error>,
}

/// Each state is the one before it after a command was carried out.
pub open spec fn is_run<F: Fn(ScoreExpr) -> Score>(
    states: Seq<StoreView>,
    steps: Seq<Step>,
    scorer: F,
) -> bool {
    &&& states.len() == steps.len() + 1
    &&& forall|i: int| 0 <= i < steps.len() ==> #[trigger] leads(states, steps, scorer, i)
}

/// Command `i` of a run leads from one state to the next.
pub open spec fn leads<F: Fn(ScoreExpr) -> Score>(
    states: Seq<StoreView>,
    steps: Seq<Step>,
    scorer: F,
    i: int,
) -> bool {
    let e = steps[i];
    &&& command::feasible(states[i], e.cmd, e.cfg, e.now)
    &&& command::performs(states[i], states[i + 1], e.reply, e.cmd, e.cfg, e.now, scorer)
}

/// Every state that commands lead to from a valid and truthful one, such as that
/// of a new store, is valid and truthful.
pub proof fn law_every_state_is_truthful<F: Fn(ScoreExpr) -> Score>(
    states: Seq<StoreView>,
    steps: Seq<Step>,
    scorer: F,
    i: int,
)
    requires
        is_run(states, steps, scorer),
        states[0].wf(),
        coverage::truthful(states[0]),
        0 <= i < states.len(),
    ensures
        states[i].wf(),
        coverage::truthful(states[i]),
    decreases i,
{
    if i > 0 {
        law_every_state_is_truthful(states, steps, scorer, i - 1);
        assert(leads(states, steps, scorer, i - 1));
        let e = steps[i - 1];
        law_every_command_keeps_the_truth(
            states[i - 1],
            states[i],
            e.reply,
            e.cmd,
            e.cfg,
            e.now,
            scorer,
        );
    }
}

/// What a truthful status report says. The four counts add up to the total, each
/// is the number of rows that `list` shows in that status, the percentage is that
/// of the done ones, nothing is left in a complete sweep, something is left in an
/// active one with folders, and the number is that of the sweep opened last.
pub proof fn law_status_tells_the_truth(s: StoreView, task: Seq<char>)
    requires
        s.wf(),
        coverage::truthful(s),
    ensures
        s.latest(task) is None ==> s.status(task).sweep == 0 && s.status(task).total == 0,
        s.latest(task) matches Some(k) ==> {
            let r = s.status(task);
            &&& r.total == r.pending + r.leased + r.done + r.skipped
            &&& r.total == s.shown(task, None).len()
            &&& r.pending == s.shown(task, Some(WorkStatus::Pending)).len()
            &&& r.leased == s.shown(task, Some(WorkStatus::Leased)).len()
            &&& r.done == s.shown(task, Some(WorkStatus::Done)).len()
            &&& r.skipped == s.shown(task, Some(WorkStatus::Skipped)).len()
            &&& r.total > 0 ==> r.percent == (r.done, r.total)
            &&& r.total == 0 ==> r.percent == (0int, 1int)
            &&& s.sweeps[k].status == SweepStatus::Complete ==> r.pending == 0 && r.leased == 0
            &&& s.sweeps[k].status == SweepStatus::Active && r.total > 0 ==> r.pending + r.leased
                > 0
            &&& r.sweep_status == s.sweeps[k].status.name()
            &&& s.task_at(task) matches Some(j) ==> r.sweep == s.tasks[j].current_sweep
        },
{
    if let Some(k) = s.latest(task) {
        let n = s.sweeps[k].sweep;
        let r = s.sweeps[k];
        validity::lemma_latest(s, task);
        validity::lemma_task_at(s, task);
        laws::law_counters_add_up(s, k);
        assert(coverage::honest(s.sweeps[k]));
        assert(s.drift_total(r) == 0);
        assert(s.drift(r, WorkStatus::Pending) == 0);
        assert(s.drift(r, WorkStatus::Leased) == 0);
        assert(s.drift(r, WorkStatus::Done) == 0);
        assert(s.drift(r, WorkStatus::Skipped) == 0);
        lemma_shown(s, task, n, WorkStatus::Pending);
        lemma_shown(s, task, n, WorkStatus::Leased);
        lemma_shown(s, task, n, WorkStatus::Done);
        lemma_shown(s, task, n, WorkStatus::Skipped);
        let any = state::visible(task, n, None);
        tally::lemma_filter_counts(s.work, any);
        tally::lemma_count_same(s.work, any, s.work, state::of_sweep(task, n));
        tally::lemma_count_bound(s.work, state::of_sweep(task, n));
        tally::lemma_count_bound(s.work, state::of_status(task, n, WorkStatus::Done));
    }
}

/// As many rows are listed in a status as the board has.
proof fn lemma_shown(s: StoreView, task: Seq<char>, n: i64, status: WorkStatus)
    ensures
        s.work.filter(state::visible(task, n, Some(status))).len() == s.live(task, n, status),
{
    let p = state::visible(task, n, Some(status));
    tally::lemma_filter_counts(s.work, p);
    tally::lemma_count_same(s.work, p, s.work, state::of_status(task, n, status));
}

/// Parallel agents cover every folder of a sweep exactly once, in whatever state a
/// run of commands from a new store has led to, and whatever order the agents take
/// turns in: as long as no lease runs out and each reports only what it was handed,
/// no path is handed out twice; and once a claim finds the sweep drained, those
/// handed out are exactly the folders of the snapshot that it was opened on, and as
/// many are done or skipped.
pub proof fn law_parallel_agents_in_any_run<F: Fn(ScoreExpr) -> Score>(
    states: Seq<StoreView>,
    steps: Seq<Step>,
    scorer: F,
    task: Seq<char>,
    opened_at: i64,
    scores: Seq<Score>,
    events: Seq<agents::Event>,
    agent: Option<Seq<char>>,
    ttl: i64,
    now: i64,
)
    requires
        is_run(states, steps, scorer),
        states[0] == nothing(),
        states.last().refusal(task) is None,
        states.last().has_room(task, opened_at),
        agents::fair_play(
            states.last().opened(task, opened_at, scores),
            task,
            states.last().next_number(task),
            events,
        ),
    ensures
        ({
            let s = states.last();
            let n = s.next_number(task);
            let p = agents::play(s.opened(task, opened_at, scores), task, n, events);
            &&& agents::paths(p.handed).no_duplicates()
            &&& p.state.claim(task, n, agent, ttl, now).1 is Empty ==> {
                &&& forall|path: Seq<char>| #[trigger]
                    agents::paths(p.handed).contains(path) <==> agents::in_snapshot(s, path)
                &&& coverage::all_covered(p.state, task, n)
                &&& p.state.live(task, n, WorkStatus::Done) + p.state.live(
                    task,
                    n,
                    WorkStatus::Skipped,
                ) == s.folders.len()
            }
        }),
{
    let s = states.last();
    law_a_new_store_is_truthful();
    law_every_state_is_truthful(states, steps, scorer, states.len() - 1);
    agents::law_truthful_leaves_nothing(s, task);
    agents::law_parallel_agents_cover_a_new_sweep(
        s,
        task,
        opened_at,
        scores,
        events,
        agent,
        ttl,
        now,
    );
}

// --- frozen priorities ---------------------------------------------------------------------

/// The board of a sweep has a folder with the score.
pub open spec fn scored(
    s: StoreView,
    task: Seq<char>,
    n: i64,
    path: Seq<char>,
    score: Score,
) -> bool {
    exists|i: int|
        0 <= i < s.work.len() && (#[trigger] s.work[i]).belongs(task, n) && s.work[i].path == path
            && s.work[i].score == score
}

/// The sweep is there in both states, with the same folders and the same scores.
pub open spec fn frozen(s: StoreView, t: StoreView, task: Seq<char>, n: i64) -> bool {
    &&& s.sweep_at(task, n) is Some
    &&& t.sweep_at(task, n) is Some
    &&& forall|path: Seq<char>, score: Score| #[trigger]
        scored(t, task, n, path, score) <==> scored(s, task, n, path, score)
}

/// Rows that are about the same folders, and added ones that are of other sweeps,
/// leave a sweep frozen.
proof fn lemma_frozen(s: StoreView, t: StoreView, task: Seq<char>, n: i64)
    requires
        s.wf(),
        t.wf(),
        s.sweep_at(task, n) is Some,
        s.sweeps.len() <= t.sweeps.len(),
        forall|i: int|
            #![trigger t.sweeps[i]]
            0 <= i < s.sweeps.len() ==> t.sweeps[i].task == s.sweeps[i].task && t.sweeps[i].sweep
                == s.sweeps[i].sweep,
        s.work.len() <= t.work.len(),
        forall|i: int|
            #![trigger t.work[i]]
            0 <= i < t.work.len() ==> if i < s.work.len() {
                laws::same_item(s.work[i], t.work[i])
            } else {
                !t.work[i].belongs(task, n)
            },
    ensures
        frozen(s, t, task, n),
{
    validity::lemma_sweep_at(s, task, n);
    validity::lemma_sweep_at(t, task, n);
    let k = s.sweep_at(task, n)->0;
    assert(t.sweeps[k].task == task);
    assert forall|path: Seq<char>, score: Score| #[trigger]
        scored(t, task, n, path, score) <==> scored(s, task, n, path, score) by {
        if scored(t, task, n, path, score) {
            let i = choose|i: int|
                0 <= i < t.work.len() && (#[trigger] t.work[i]).belongs(task, n) && t.work[i].path
                    == path && t.work[i].score == score;
            assert(s.work[i].belongs(task, n));
        }
        if scored(s, task, n, path, score) {
            let i = choose|i: int|
                0 <= i < s.work.len() && (#[trigger] s.work[i]).belongs(task, n) && s.work[i].path
                    == path && s.work[i].score == score;
            assert(laws::same_item(s.work[i], t.work[i]));
            assert(t.work[i].belongs(task, n));
        }
    }
}

/// Rows that `next` adds are of a sweep that was not there.
proof fn lemma_next_adds(
    s: StoreView,
    task: Seq<char>,
    agent: Option<Seq<char>>,
    ttl: i64,
    auto: bool,
    now: i64,
    scores: Seq<Score>,
)
    requires
        laws::ready(s, task, agent, ttl, auto, now),
    ensures
        ({
            let t = s.next_step(task, agent, ttl, auto, now, scores).0;
            forall|i: int, x: Seq<char>, n: i64|
                s.work.len() <= i < t.work.len() && s.sweep_at(x, n) is Some ==> !(
                #[trigger] t.work[i].belongs(x, n))
        }),
{
    let t = s.next_step(task, agent, ttl, auto, now, scores).0;
    validity::lemma_latest(s, task);
    match s.opening(task, agent, ttl, auto, now) {
        Some(o) => {
            let m = o.next_number(task);
            let b = o.opened(task, now, scores);
            laws::lemma_opening(s, task, agent, ttl, auto, now);
            validity::lemma_opened(o, task, now, scores);
            laws::law_new_sweep_is_the_snapshot(o, task, now, scores);
            if o.folders.len() == 0 {
                validity::lemma_closed(b, task, m, now);
            } else {
                validity::lemma_open_claims(o, task, agent, ttl, now, scores);
                validity::lemma_claim(b, task, m, agent, ttl, now);
            }
            assert forall|i: int, x: Seq<char>, n: i64|
                s.work.len() <= i < t.work.len() && s.sweep_at(x, n) is Some implies !(
            #[trigger] t.work[i].belongs(x, n)) by {
                let w = o.work.len() as int;
                assert(b.work[w + (i - w)].belongs(task, m));
                assert(t.work[i].belongs(task, m));
                validity::lemma_sweep_at(s, x, n);
                let k = s.sweep_at(x, n)->0;
                assert(o.sweeps[k].task == s.sweeps[k].task);
            }
        },
        None => {
            let n = s.sweeps[s.latest(task)->0].sweep;
            validity::lemma_claim(s, task, n, agent, ttl, now);
        },
    }
}

/// Priorities are frozen when a sweep opens: whatever command is carried out, but
/// for clearing the task, a sweep that is there keeps exactly its folders and
/// their scores.
pub proof fn law_a_command_leaves_priorities_frozen<F: Fn(ScoreExpr) -> Score>(
    s: StoreView,
    t: StoreView,
    e: Step,
    scorer: F,
    task: Seq<char>,
    n: i64,
)
    requires
        s.wf(),
        command::feasible(s, e.cmd, e.cfg, e.now),
        command::performs(s, t, e.reply, e.cmd, e.cfg, e.now, scorer),
        s.sweep_at(task, n) is Some,
        !clears(e.cmd, task),
    ensures
        frozen(s, t, task, n),
{
    lemma_command_keeps_valid(s, t, e.reply, e.cmd, e.cfg, e.now, scorer);
    let (cfg, now) = (e.cfg, e.now);
    match e.cmd {
        Command::Init { survey, .. } => {
            lemma_frozen(s, t, task, n);
        },
        Command::Next { task: x, agent, strategy, auto_sweep } => {
            if !text::is_blank(x@) {
                let p = s.prepared(x@, cfg.strategy, strategy, now);
                let a = model::owned_text(agent);
                let ttl = cfg.lease.ttl_secs;
                command::lemma_prepared(s, x@, cfg, strategy, now);
                assert(p.sweep_at(task, n) == s.sweep_at(task, n));
                if p.stuck(x@, a, ttl, auto_sweep, now) {
                    laws::lemma_opening(p, x@, a, ttl, auto_sweep, now);
                } else {
                    let v = e.reply->Ok_0->Next_0@;
                    let scores = choose|scores: Seq<Score>| #[trigger]
                        p.next_step(x@, a, ttl, auto_sweep, now, scores) == (t, v);
                    laws::law_next_respects_the_rest(p, x@, a, ttl, auto_sweep, now, scores);
                    lemma_next_adds(p, x@, a, ttl, auto_sweep, now, scores);
                }
                lemma_frozen(p, t, task, n);
                lemma_same_scored(s, p, task, n);
            } else {
                lemma_frozen(s, t, task, n);
            }
        },
        Command::Done { task: x, path, agent, reason, found, clean } => {
            laws::law_complete_respects_the_rest(
                s,
                x@,
                walk::stored_form(path@),
                model::owned_text(agent),
                WorkStatus::Done,
                model::owned_text(reason),
                command::outcome_of(found, clean),
                now,
            );
            lemma_complete_adds(
                s,
                x@,
                walk::stored_form(path@),
                model::owned_text(agent),
                WorkStatus::Done,
                model::owned_text(reason),
                command::outcome_of(found, clean),
                now,
            );
            lemma_frozen(s, t, task, n);
        },
        Command::Skip { task: x, path, agent, reason, found, clean } => {
            laws::law_complete_respects_the_rest(
                s,
                x@,
                walk::stored_form(path@),
                model::owned_text(agent),
                WorkStatus::Skipped,
                model::owned_text(reason),
                command::outcome_of(found, clean),
                now,
            );
            lemma_complete_adds(
                s,
                x@,
                walk::stored_form(path@),
                model::owned_text(agent),
                WorkStatus::Skipped,
                model::owned_text(reason),
                command::outcome_of(found, clean),
                now,
            );
            lemma_frozen(s, t, task, n);
        },
        Command::SweepNew { task: x, rescan } => match rescan {
            None => {
                lemma_opens_frozen(s, t, e.reply, x@, cfg, now, scorer, task, n);
            },
            Some(survey) => {
                let (u, folders, excluded) = choose|
                    u: StoreView,
                    folders: Seq<FolderView>,
                    excluded: int,
                | #[trigger]
                    command::registered(s, u, survey, cfg, now, folders, excluded)
                        && command::opens_new(u, t, e.reply, x@, cfg, now, scorer);
                lemma_scan_distinct(survey, cfg, folders, excluded);
                validity::lemma_with_folders(s, folders, now);
                command::lemma_room_kept(s, folders, x@, cfg, now);
                assert(u.sweep_at(task, n) == s.sweep_at(task, n));
                lemma_opens_frozen(u, t, e.reply, x@, cfg, now, scorer, task, n);
                lemma_same_scored(s, u, task, n);
            },
        },
        Command::Reset { task: x, all } => {
            lemma_reset_frozen(s, x@, all, task, n);
        },
        Command::Gc { .. } => {
            lemma_frozen(s, t, task, n);
        },
        Command::Status { .. } => {
            lemma_frozen(s, t, task, n);
        },
        Command::List { .. } => {
            lemma_frozen(s, t, task, n);
        },
        Command::SweepShow { .. } => {
            lemma_frozen(s, t, task, n);
        },
    }
}

/// The command clears the task.
pub open spec fn clears(cmd: Command, task: Seq<char>) -> bool {
    cmd matches Command::Reset { task: x, .. } && x@ == task
}

/// States with the same boards have the same scores.
proof fn lemma_same_scored(s: StoreView, p: StoreView, task: Seq<char>, n: i64)
    requires
        p.work == s.work,
    ensures
        forall|path: Seq<char>, score: Score| #[trigger]
            scored(p, task, n, path, score) <==> scored(s, task, n, path, score),
{
}

/// Covering a folder adds none.
proof fn lemma_complete_adds(
    s: StoreView,
    task: Seq<char>,
    path: Seq<char>,
    agent: Option<Seq<char>>,
    status: WorkStatus,
    reason: Option<Seq<char>>,
    found: Option<i64>,
    now: i64,
)
    requires
        s.wf(),
    ensures
        s.complete(task, path, agent, status, reason, found, now) matches Ok((t, _))
            ==> t.work.len() == s.work.len(),
{
}

/// A sweep that is opened leaves the others frozen.
proof fn lemma_opens_frozen<F: Fn(ScoreExpr) -> Score>(
    s: StoreView,
    t: StoreView,
    r: Result<Reply, Error>,
    x: Seq<char>,
    cfg: Config,
    now: i64,
    scorer: F,
    task: Seq<char>,
    n: i64,
)
    requires
        s.wf(),
        command::opens_new(s, t, r, x, cfg, now, scorer),
        command::may_open(s, x, cfg, now) ==> s.prepared(x, cfg.strategy, None, now).has_room(
            x,
            now,
        ),
        s.sweep_at(task, n) is Some,
    ensures
        frozen(s, t, task, n),
{
    lemma_opens_valid(s, t, r, x, cfg, now, scorer);
    validity::lemma_sweep_at(s, task, n);
    if text::is_blank(x) {
        lemma_frozen(s, t, task, n);
    } else {
        let p = s.prepared(x, cfg.strategy, None, now);
        command::lemma_prepared(s, x, cfg, None, now);
        if p.refusal(x) is None {
            let scores = choose|scores: Seq<Score>|
                #![trigger p.opened(x, now, scores)]
                state::scored_by(scorer, p.plan(x, cfg.strategy, now), scores) && t == p.opened(
                    x,
                    now,
                    scores,
                );
            let w = p.work.len() as int;
            let m = p.next_number(x);
            laws::law_new_sweep_is_the_snapshot(p, x, now, scores);
            assert forall|i: int|
                #![trigger t.work[i]]
                0 <= i < t.work.len() implies if i < s.work.len() {
                laws::same_item(s.work[i], t.work[i])
            } else {
                !t.work[i].belongs(task, n)
            } by {
                if i < s.work.len() {
                    assert(t.work[i] == s.work[i]);
                } else {
                    assert(t.work[w + (i - w)].belongs(x, m));
                    let k = s.sweep_at(task, n)->0;
                    assert(p.sweeps[k].task == task);
                }
            }
            lemma_frozen(s, t, task, n);
        } else {
            lemma_frozen(s, t, task, n);
        }
    }
}

/// Clearing one task leaves the sweeps of the others frozen.
proof fn lemma_reset_frozen(s: StoreView, x: Seq<char>, all: bool, task: Seq<char>, n: i64)
    requires
        s.wf(),
        x != task,
        s.sweep_at(task, n) is Some,
    ensures
        frozen(s, s.reset(x, all), task, n),
{
    let t = s.reset(x, all);
    validity::lemma_reset(s, x, all);
    validity::lemma_sweep_at(s, task, n);
    validity::lemma_sweep_at(t, task, n);
    tally::lemma_kept(s.sweeps, state::sweep_elsewhere(x));
    tally::lemma_kept(s.work, state::work_elsewhere(x));
    let k = s.sweep_at(task, n)->0;
    assert(state::sweep_elsewhere(x)(s.sweeps[k]));
    let q = choose|q: int| 0 <= q < t.sweeps.len() && t.sweeps[q] == s.sweeps[k];
    assert(t.sweeps[q].task == task);
    assert forall|path: Seq<char>, score: Score| #[trigger]
        scored(t, task, n, path, score) <==> scored(s, task, n, path, score) by {
        if scored(t, task, n, path, score) {
            let i = choose|i: int|
                0 <= i < t.work.len() && (#[trigger] t.work[i]).belongs(task, n) && t.work[i].path
                    == path && t.work[i].score == score;
            let j = choose|j: int| 0 <= j < s.work.len() && s.work[j] == t.work[i];
            assert(s.work[j].belongs(task, n));
        }
        if scored(s, task, n, path, score) {
            let i = choose|i: int|
                0 <= i < s.work.len() && (#[trigger] s.work[i]).belongs(task, n) && s.work[i].path
                    == path && s.work[i].score == score;
            assert(state::work_elsewhere(x)(s.work[i]));
            let j = choose|j: int| 0 <= j < t.work.len() && t.work[j] == s.work[i];
            assert(t.work[j].belongs(task, n));
        }
    }
}

/// Priorities stay frozen through any run of commands that does not clear the
/// task: later visits, rescans and changes of strategy only affect sweeps that are
/// opened afterwards.
pub proof fn law_priorities_stay_frozen<F: Fn(ScoreExpr) -> Score>(
    states: Seq<StoreView>,
    steps: Seq<Step>,
    scorer: F,
    task: Seq<char>,
    n: i64,
    i: int,
)
    requires
        is_run(states, steps, scorer),
        states[0].wf(),
        states[0].sweep_at(task, n) is Some,
        forall|j: int| 0 <= j < steps.len() ==> !clears((#[trigger] steps[j]).cmd, task),
        0 <= i < states.len(),
    ensures
        states[i].wf(),
        frozen(states[0], states[i], task, n),
    decreases i,
{
    if i > 0 {
        law_priorities_stay_frozen(states, steps, scorer, task, n, i - 1);
        assert(leads(states, steps, scorer, i - 1));
        let e = steps[i - 1];
        lemma_command_keeps_valid(
            states[i - 1],
            states[i],
            e.reply,
            e.cmd,
            e.cfg,
            e.now,
            scorer,
        );
        law_a_command_leaves_priorities_frozen(states[i - 1], states[i], e, scorer, task, n);
    }
}

}
