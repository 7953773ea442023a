//! Whole commands: what they answer and the exit codes that go with it.

use trail::command::{
    execute, run as run_checked, Command, Reply, Survey, EXIT_ERROR, EXIT_NONE_AVAILABLE, EXIT_OK,
    EXIT_SWEEP_COMPLETE,
};
use trail::scheduler::ScoreExpr;
use trail::{Config, Error, FileEntry, NextResult, Score, Store, Strategy, WorkStatus};

const NOW: i64 = 1_000_000;

fn scorer(e: ScoreExpr) -> Score {
    match e {
        ScoreExpr::Unit { unit } => Score { key: unit as i64 },
        ScoreExpr::LeastRecent { tie, .. } => Score { key: tie as i64 },
        ScoreExpr::Blend { tie, .. } => Score { key: tie as i64 },
    }
}

fn survey(folders: &[&str]) -> Survey {
    Survey {
        files: folders
            .iter()
            .map(|f| FileEntry { folder: f.to_string(), size: 9 })
            .collect(),
        // The walk meets the root before all else.
        dirs: ["."].iter().chain(folders).map(|f| f.to_string()).collect(),
        touched: Vec::new(),
    }
}

fn run(s: &mut Store, cmd: Command) -> Result<Reply, Error> {
    execute(s, &cmd, &Config::default(), NOW, &scorer)
}

fn init(folders: &[&str]) -> Store {
    let mut s = Store::open_in_memory().unwrap();
    run(&mut s, Command::Init { survey: survey(folders), wrote_example_config: true }).unwrap();
    s
}

fn next(agent: Option<&str>) -> Command {
    Command::Next {
        task: "t".into(),
        agent: agent.map(|a| a.to_string()),
        strategy: None,
        auto_sweep: false,
    }
}

fn done(path: &str, agent: Option<&str>) -> Command {
    Command::Done {
        task: "t".into(),
        path: path.into(),
        agent: agent.map(|a| a.to_string()),
        reason: None,
        found: None,
        clean: false,
    }
}

#[test]
fn init_next_done_until_sweep_complete() {
    let mut s = Store::open_in_memory().unwrap();

    // init: registers two folders and writes the example config.
    let cmd = Command::Init { survey: survey(&["alpha", "beta"]), wrote_example_config: true };
    match run(&mut s, cmd).unwrap() {
        Reply::Init(r) => {
            assert_eq!(r.folders, 2);
            assert_eq!(r.excluded, 1); // the root directly holds no file
            assert!(r.wrote_example_config);
        }
        other => panic!("expected init, got {other:?}"),
    }

    // first next: bootstraps sweep 1 and leases a folder.
    let r = run(&mut s, next(Some("a1"))).unwrap();
    assert_eq!(r.exit_code(), EXIT_OK);
    assert!(matches!(r, Reply::Next(NextResult::Claimed { sweep: 1, .. })));

    // Complete both known folders (one was leased, one still pending: both ok).
    for folder in ["alpha", "beta"] {
        match run(&mut s, done(folder, Some("a1"))).unwrap() {
            Reply::Complete(c) => assert_eq!(c.status, "done"),
            other => panic!("expected done, got {other:?}"),
        }
    }

    // Sweep is now fully covered: next reports sweep-complete with exit code 3.
    let r = run(&mut s, next(Some("a1"))).unwrap();
    assert_eq!(r.exit_code(), 3);
    assert!(matches!(r, Reply::Next(NextResult::SweepComplete { covered: 2, .. })));

    // status reflects full coverage.
    match run(&mut s, Command::Status { task: "t".into() }).unwrap() {
        Reply::Status(st) => {
            assert_eq!(st.done, 2);
            assert_eq!((st.percent.part, st.percent.whole), (2, 2));
        }
        other => panic!("expected status, got {other:?}"),
    }
}

#[test]
fn second_sweep_remembers_history() {
    let mut s = init(&["x"]);
    // Drain sweep 1.
    run(&mut s, next(None)).unwrap();
    run(&mut s, done("x", None)).unwrap();
    assert_eq!(run(&mut s, next(None)).unwrap().exit_code(), 3);
    // A new sweep is number 2, and the history is retained.
    let r = run(&mut s, Command::SweepNew { task: "t".into(), rescan: None }).unwrap();
    match r {
        Reply::Sweep(i) => assert_eq!(i.sweep, 2),
        other => panic!("expected a sweep, got {other:?}"),
    }
    assert_eq!(s.visits.len(), 1);
    let r = run(&mut s, next(None)).unwrap();
    assert_eq!(r.exit_code(), EXIT_OK);
    assert!(matches!(r, Reply::Next(NextResult::Claimed { sweep: 2, .. })));
}

#[test]
fn none_available_when_all_leased() {
    let mut s = init(&["only"]);
    // a1 leases the single folder.
    let r = run(&mut s, next(Some("a1"))).unwrap();
    assert!(matches!(r, Reply::Next(NextResult::Claimed { .. })));
    // a2 finds nothing pending but a live lease: exit code 4.
    let r = run(&mut s, next(Some("a2"))).unwrap();
    assert_eq!(r.exit_code(), 4);
    assert!(matches!(
        r,
        Reply::Next(NextResult::NoneAvailable { leased_outstanding: 1, .. })
    ));
}

#[test]
fn done_with_unknown_path_exits_error() {
    let mut s = init(&["real"]);
    run(&mut s, next(None)).unwrap();
    // A typo / wrong path is a hard error (exit 1), not silent success.
    match run(&mut s, done("bogus/typo", None)) {
        Err(Error::NotInSweep(m)) => assert!(m.contains("not a work item")),
        other => panic!("expected an error, got {other:?}"),
    }
    assert_eq!(EXIT_ERROR, 1);
    // Coverage did not advance.
    assert_eq!(s.status("t").unwrap().done, 0);
}

#[test]
fn empty_repo_next_flags_missing_init() {
    let mut s = Store::open_in_memory().unwrap();
    // No init, no files: completion must be distinguishable from real coverage.
    let r = run(&mut s, next(None)).unwrap();
    assert_eq!(r.exit_code(), 3);
    match r {
        Reply::Next(NextResult::SweepComplete { total, note, .. }) => {
            assert_eq!(total, 0);
            assert!(note.is_some());
        }
        other => panic!("expected sweep-complete, got {other:?}"),
    }
}

#[test]
fn gc_runs_and_reconciles() {
    let mut s = init(&["a"]);
    run(&mut s, next(None)).unwrap();
    s.sweeps[0].pending = 12;
    for reconcile in [false, true] {
        match run(&mut s, Command::Gc { reconcile }).unwrap() {
            Reply::Gc(r) => assert_eq!(r.reclaimed_leases, 0),
            other => panic!("expected gc, got {other:?}"),
        }
        assert_eq!(s.sweeps[0].pending, if reconcile { 0 } else { 12 });
    }
}

#[test]
fn done_without_a_sweep_errors() {
    let mut s = init(&["a"]);
    // Folders are registered but no sweep is open yet (no `next`): a `done` has
    // no work item to land on, so it errors rather than silently succeeding.
    match run(&mut s, done("a", None)) {
        Err(Error::NotInSweep(m)) => assert!(m.contains("not a work item")),
        other => panic!("expected an error, got {other:?}"),
    }
}

#[test]
fn rescan_new_sweep_picks_up_added_folder() {
    let mut s = init(&["a"]);
    // Drain sweep 1 (one folder).
    run(&mut s, next(None)).unwrap();
    run(&mut s, done("a", None)).unwrap();
    assert_eq!(run(&mut s, next(None)).unwrap().exit_code(), 3);
    // The tree grows; rescan into a new sweep sees both folders.
    let cmd = Command::SweepNew { task: "t".into(), rescan: Some(survey(&["a", "b"])) };
    match run(&mut s, cmd).unwrap() {
        Reply::Sweep(i) => assert_eq!(i.total, 2),
        other => panic!("expected a sweep, got {other:?}"),
    }
    match run(&mut s, Command::SweepShow { task: "t".into() }).unwrap() {
        Reply::Sweep(i) => {
            assert_eq!((i.sweep, i.total), (2, 2));
            assert_eq!(i.sweep_status, "active");
            assert_eq!((i.started_at, i.completed_at), (Some(NOW), None));
        }
        other => panic!("expected a sweep, got {other:?}"),
    }
}

#[test]
fn sweep_new_while_active_errors() {
    let mut s = init(&["a", "b"]);
    // Open sweep 1 and leave it active.
    run(&mut s, next(None)).unwrap();
    match run(&mut s, Command::SweepNew { task: "t".into(), rescan: None }) {
        Err(Error::SweepActive(m)) => assert!(m.contains("still active")),
        other => panic!("expected an error, got {other:?}"),
    }
}

#[test]
fn reports_are_recorded_with_the_visit() {
    let mut s = init(&["a", "b", "c"]);
    run(&mut s, next(Some("x"))).unwrap();
    let report = |path: &str, found: Option<i64>, clean: bool| Command::Skip {
        task: "t".into(),
        path: path.into(),
        agent: Some("x".into()),
        reason: Some("why".into()),
        found,
        clean,
    };
    run(&mut s, report("a", Some(3), false)).unwrap();
    run(&mut s, report("b", None, true)).unwrap();
    run(&mut s, report("c", None, false)).unwrap();
    let outcomes: Vec<Option<i64>> = s.visits.iter().map(|v| v.outcome).collect();
    assert_eq!(outcomes, [Some(3), Some(0), None]);
    assert!(s.visits.iter().all(|v| v.status == WorkStatus::Skipped
        && v.reason.as_deref() == Some("why")
        && v.agent.as_deref() == Some("x")));
}

#[test]
fn list_and_reset_answer() {
    let mut s = init(&["a", "b"]);
    run(
        &mut s,
        Command::Next {
            task: "t".into(),
            agent: None,
            strategy: Some(Strategy::Random),
            auto_sweep: true,
        },
    )
    .unwrap();
    let list = |state: Option<WorkStatus>| Command::List { task: "t".into(), state };
    match run(&mut s, list(Some(WorkStatus::Leased))).unwrap() {
        Reply::List(rows) => {
            assert_eq!(rows.len(), 1);
            assert_eq!(rows[0].status, "leased");
            assert_eq!(rows[0].lease_expires_at, Some(NOW + 900));
        }
        other => panic!("expected a list, got {other:?}"),
    }
    match run(&mut s, Command::Reset { task: "t".into(), all: false }).unwrap() {
        Reply::Reset(r) => assert_eq!((r.cleared_sweeps, r.cleared_history), (1, false)),
        other => panic!("expected a reset, got {other:?}"),
    }
    match run(&mut s, list(None)).unwrap() {
        Reply::List(rows) => assert!(rows.is_empty()),
        other => panic!("expected a list, got {other:?}"),
    }
}

#[test]
fn exit_codes() {
    assert_eq!(
        (EXIT_OK, EXIT_ERROR, EXIT_SWEEP_COMPLETE, EXIT_NONE_AVAILABLE),
        (0, 1, 3, 4)
    );
}

#[test]
fn obstacles_are_told_and_change_nothing() {
    let cfg = Config::default();
    let message = |r: Result<Reply, Error>| match r {
        Err(Error::Other(m)) => m,
        other => panic!("expected an obstacle, got {other:?}"),
    };
    let mut s = init(&["a"]);
    run(&mut s, next(None)).unwrap();

    let mut big = survey(&["a", "b"]);
    big.files[0].size = i64::MAX;
    let cmd = Command::Init { survey: big, wrote_example_config: false };
    assert_eq!(message(run_checked(&mut s, &cmd, &cfg, NOW, &scorer)), "the tree is too large");
    let mut odd = survey(&["a"]);
    odd.files[0].size = -1;
    let cmd = Command::SweepNew { task: "t".into(), rescan: Some(odd) };
    assert_eq!(message(run_checked(&mut s, &cmd, &cfg, NOW, &scorer)), "the tree is too large");
    assert_eq!(s.folder_count().unwrap(), 1);

    let sweep = s.work[0].sweep;
    s.work[0].sweep = 9;
    assert_eq!(
        message(run_checked(&mut s, &done("a", None), &cfg, NOW, &scorer)),
        "the state is damaged"
    );
    // Reading is always possible.
    let status = Command::Status { task: "t".into() };
    assert!(matches!(
        run_checked(&mut s, &status, &cfg, NOW, &scorer),
        Ok(Reply::Status(_))
    ));

    s.work[0].sweep = sweep;
    // Where no sweep is opened none needs room: the active one is worked on.
    s.tasks[0].current_sweep = i64::MAX;
    s.sweeps[0].sweep = i64::MAX;
    s.work[0].sweep = i64::MAX;
    let auto = Command::Next {
        task: "t".into(),
        agent: None,
        strategy: None,
        auto_sweep: true,
    };
    let r = run_checked(&mut s, &auto, &cfg, NOW, &scorer).unwrap();
    assert_eq!(r.exit_code(), EXIT_NONE_AVAILABLE);
    let new = Command::SweepNew { task: "t".into(), rescan: None };
    assert!(matches!(
        run_checked(&mut s, &new, &cfg, NOW, &scorer),
        Err(Error::SweepActive(_))
    ));
    run_checked(&mut s, &done("a", None), &cfg, NOW, &scorer).unwrap();
    assert_eq!(run_checked(&mut s, &next(None), &cfg, NOW, &scorer).unwrap().exit_code(), 3);
    for cmd in [&auto, &new] {
        assert_eq!(
            message(run_checked(&mut s, cmd, &cfg, NOW, &scorer)),
            "there is no room for another sweep"
        );
    }
    let mut t = init(&["a"]);
    let r = run_checked(&mut t, &next(None), &cfg, NOW, &scorer).unwrap();
    assert_eq!(r.exit_code(), EXIT_OK);
}

#[test]
fn a_pending_folder_is_handed_out_at_any_time() {
    let cfg = Config::default();
    let mut s = init(&["a", "b"]);
    run_checked(&mut s, &next(None), &cfg, -1, &scorer).unwrap();
    let leased = s.work.iter().find(|w| w.status == WorkStatus::Leased).unwrap().path.clone();
    run_checked(&mut s, &done(&leased, None), &cfg, -1, &scorer).unwrap();
    // The time since that visit would not fit, but no sweep is opened.
    let r = run_checked(&mut s, &next(None), &cfg, i64::MAX, &scorer).unwrap();
    assert_eq!(r.exit_code(), EXIT_OK);
    assert!(!s.would_open("t", true, i64::MAX));
}

#[test]
fn any_drift_is_reconciled() {
    let cfg = Config::default();
    let mut s = init(&["a", "b"]);
    run_checked(&mut s, &next(None), &cfg, NOW, &scorer).unwrap();
    // Counters that are off beyond all measure, and a sweep without its task.
    s.sweeps[0].total = i64::MIN;
    s.sweeps[0].pending = i64::MAX;
    s.sweeps[0].done = i64::MAX;
    s.tasks.clear();
    assert!(!s.is_countable());
    assert!(matches!(
        run_checked(&mut s, &Command::Gc { reconcile: false }, &cfg, NOW, &scorer),
        Err(Error::Other(_))
    ));
    match run_checked(&mut s, &Command::Gc { reconcile: true }, &cfg, NOW, &scorer).unwrap() {
        Reply::Gc(r) => assert_eq!(r.reclaimed_leases, 0),
        other => panic!("expected gc, got {other:?}"),
    }
    let r = &s.sweeps[0];
    assert_eq!((r.total, r.pending, r.leased, r.done, r.skipped), (2, 1, 1, 0, 0));
    // Rows without a sweep are collected all the same.
    s.work[0].sweep = 9;
    s.work[0].status = WorkStatus::Leased;
    s.work[0].lease_expires_at = Some(NOW);
    match run_checked(&mut s, &Command::Gc { reconcile: true }, &cfg, NOW + 1, &scorer).unwrap() {
        Reply::Gc(r) => assert_eq!(r.reclaimed_leases, 1),
        other => panic!("expected gc, got {other:?}"),
    }
    assert_eq!(s.sweeps[0].total, 1);
}

/// Two sweeps of a task that are both active, with one folder each.
fn overlapping() -> Store {
    let mut s = init(&["a"]);
    run(&mut s, next(Some("x"))).unwrap();
    run(&mut s, done("a", Some("x"))).unwrap();
    run(&mut s, Command::SweepNew { task: "t".into(), rescan: None }).unwrap();
    s.sweeps[0].status = trail::SweepStatus::Active;
    s
}

#[test]
fn overlapping_sweeps_are_worked_on() {
    let cfg = Config::default();
    let auto = Command::Next { task: "t".into(), agent: None, strategy: None, auto_sweep: true };
    let mut s = overlapping();
    // The newest is handed out and covered.
    let r = run_checked(&mut s, &auto, &cfg, NOW, &scorer).unwrap();
    assert!(matches!(r, Reply::Next(NextResult::Claimed { sweep: 2, .. })));
    match run_checked(&mut s, &done("a", None), &cfg, NOW, &scorer).unwrap() {
        Reply::Complete(c) => assert_eq!((c.sweep, c.remaining, c.sweep_complete), (2, 0, true)),
        other => panic!("expected done, got {other:?}"),
    }
    // Another cannot be opened while the older one is active.
    match run_checked(&mut s, &auto, &cfg, NOW, &scorer) {
        Err(Error::Other(m)) => {
            assert_eq!(m, "next: too many sweep transitions for task \"t\"");
        }
        other => panic!("expected an error, got {other:?}"),
    }
    assert!(matches!(
        run_checked(
            &mut s,
            &Command::SweepNew { task: "t".into(), rescan: None },
            &cfg,
            NOW,
            &scorer
        ),
        Err(Error::SweepActive(_))
    ));
    assert_eq!(s.sweeps.len(), 2);
}

#[test]
fn any_rows_can_be_cleared_and_scanned_anew() {
    let cfg = Config::default();
    let reset = Command::Reset { task: "t".into(), all: true };
    let rescan = || Command::Init { survey: survey(&["p", "q"]), wrote_example_config: false };
    // Overlapping sweeps; counters off beyond all measure; a row without a sweep.
    let mut damaged = overlapping();
    damaged.sweeps[0].pending = i64::MAX;
    let mut loose = overlapping();
    loose.work[0].sweep = 9;
    for mut s in [overlapping(), damaged, loose] {
        match run_checked(&mut s, &rescan(), &cfg, NOW, &scorer).unwrap() {
            Reply::Init(r) => assert_eq!(r.folders, 2),
            other => panic!("expected init, got {other:?}"),
        }
        match run_checked(&mut s, &reset, &cfg, NOW, &scorer).unwrap() {
            Reply::Reset(r) => assert_eq!((r.cleared_sweeps, r.cleared_history), (2, true)),
            other => panic!("expected a reset, got {other:?}"),
        }
        assert!(s.is_sound() && s.work.is_empty() && s.visits.is_empty());
        let r = run_checked(&mut s, &next(None), &cfg, NOW, &scorer).unwrap();
        assert!(matches!(r, Reply::Next(NextResult::Claimed { sweep: 1, remaining: 1, .. })));
    }
}

#[test]
fn a_sweep_without_its_task_is_worked_on() {
    let cfg = Config::default();
    let mut s = init(&["a", "b"]);
    run_checked(&mut s, &next(None), &cfg, NOW, &scorer).unwrap();
    s.tasks.clear();
    assert!(s.is_sound());
    match run_checked(&mut s, &done("a", None), &cfg, NOW, &scorer).unwrap() {
        Reply::Complete(c) => assert_eq!((c.sweep, c.remaining, c.sweep_complete), (1, 1, false)),
        other => panic!("expected done, got {other:?}"),
    }
    // The task goes on from its newest sweep.
    run_checked(&mut s, &done("b", None), &cfg, NOW, &scorer).unwrap();
    let r = run_checked(&mut s, &next(None), &cfg, NOW, &scorer).unwrap();
    assert_eq!(r.exit_code(), EXIT_SWEEP_COMPLETE);
    assert_eq!(s.tasks[0].current_sweep, 1);
    let new = Command::SweepNew { task: "t".into(), rescan: None };
    match run_checked(&mut s, &new, &cfg, NOW, &scorer).unwrap() {
        Reply::Sweep(i) => assert_eq!((i.sweep, i.total), (2, 2)),
        other => panic!("expected a sweep, got {other:?}"),
    }
    assert!(s.has_active_sweep("t") && !s.has_active_sweep("u"));
}
